use vstd::prelude::*;
use super::jks::{
    certs_view, jks_trusted_certs, parse_jks_trusted_certs, read_u32, skip_utf, u32_at, utf_end,
    JksError, JKS_MAGIC,
};
use super::pem::{pem_bundle, pem_certificates};
use super::pkcs12::password_text;
use crate::text::{owned, result_text};

verus! {

/// Version of the key store layout that the `minijks` reader accepts.
pub const MINIJKS_VERSION: u32 = 2;

/// Tag by which the `minijks` reader knows an entry with a key pair.
pub const MINIJKS_TAG_KEY_PAIR: u32 = 1;

/// Tag by which the `minijks` reader knows an entry with a certificate.
pub const MINIJKS_TAG_CERT: u32 = 2;

/// The position behind a certificate as the `minijks` reader walks it: a type, a length,
/// and as many bytes. `None` where the data ends before.
pub open spec fn walked_cert_end(data: Seq<u8>, pos: int) -> Option<int> {
    match utf_end(data, pos) {
        Err(_) => None,
        Ok(p) => match u32_at(data, p) {
            Err(_) => None,
            Ok(len) => if p + 4 + len <= data.len() {
                Some(p + 4 + len)
            } else {
                None
            },
        },
    }
}

/// The position behind `count` certificates, one behind the other.
pub open spec fn walked_chain_end(data: Seq<u8>, pos: int, count: nat) -> Option<int>
    decreases count,
{
    if count == 0 {
        Some(pos)
    } else {
        match walked_cert_end(data, pos) {
            None => None,
            Some(p) => walked_chain_end(data, p, (count - 1) as nat),
        }
    }
}

/// The position behind what follows the time of an entry with tag `tag`: a certificate; or,
/// for a key pair, a key with its length in front, a count, and as many certificates.
pub open spec fn walked_body_end(data: Seq<u8>, pos: int, tag: u32) -> Option<int> {
    if tag == MINIJKS_TAG_CERT {
        walked_cert_end(data, pos)
    } else {
        match u32_at(data, pos) {
            Err(_) => None,
            Ok(len) => if pos + 4 + len > data.len() {
                None
            } else {
                match u32_at(data, pos + 4 + len) {
                    Err(_) => None,
                    Ok(count) => walked_chain_end(data, pos + 8 + len, count as nat),
                }
            },
        }
    }
}

/// What the `minijks` reader meets at the entry at `pos`.
pub enum Walked {
    /// A tag that it does not know: it stops the program.
    UnknownTag,
    /// The end of the data, or an entry that does not parse: it stops without harm.
    Stop,
    /// An entry that ends at this position.
    Next(int),
}

/// What the `minijks` reader meets at the entry at `pos`: a tag, an alias, eight bytes of
/// time, and what the tag calls for.
pub open spec fn walked_entry(data: Seq<u8>, pos: int) -> Walked {
    match u32_at(data, pos) {
        Err(_) => Walked::Stop,
        Ok(tag) => if tag != MINIJKS_TAG_KEY_PAIR && tag != MINIJKS_TAG_CERT {
            Walked::UnknownTag
        } else {
            match utf_end(data, pos + 4) {
                Err(_) => Walked::Stop,
                Ok(p) => if p + 8 > data.len() {
                    Walked::Stop
                } else {
                    match walked_body_end(data, p + 8, tag) {
                        None => Walked::Stop,
                        Some(next) => Walked::Next(next),
                    }
                },
            }
        },
    }
}

/// Every tag that the `minijks` reader can come to, on its way through `count` entries from
/// `pos` on, is one that it knows.
pub open spec fn walked_tags_known(data: Seq<u8>, pos: int, count: nat) -> bool
    decreases count,
{
    if count == 0 {
        true
    } else {
        match walked_entry(data, pos) {
            Walked::UnknownTag => false,
            Walked::Stop => true,
            Walked::Next(next) => walked_tags_known(data, next, (count - 1) as nat),
        }
    }
}

/// The `minijks` reader can be given the data: it comes to no tag that it does not know. It
/// reads no tag at all where the magic number or the version is not the one it accepts.
pub open spec fn minijks_safe(data: Seq<u8>) -> bool {
    match (u32_at(data, 0), u32_at(data, 4), u32_at(data, 8)) {
        (Ok(magic), Ok(version), Ok(count)) => magic == JKS_MAGIC && version == MINIJKS_VERSION
            ==> walked_tags_known(data, 12, count as nat),
        _ => true,
    }
}

/// The certificates to use, given what the first reader gave and what this library's own
/// reader gives: those of the first reader if it gave any; else those of the second, which
/// has to give some.
pub open spec fn chosen_certs(
    first: Option<Seq<Seq<u8>>>,
    second: Result<Seq<Seq<u8>>, JksError>,
) -> Result<Seq<Seq<u8>>, Seq<char>> {
    match first {
        Some(certs) if certs.len() > 0 => Ok(certs),
        _ => match second {
            Ok(certs) => if certs.len() > 0 {
                Ok(certs)
            } else {
                Err("No certificates found in truststore"@)
            },
            Err(e) => Err(e.text()),
        },
    }
}

/// What `choose_certs` gives, as plain values.
pub open spec fn certs_result(r: Result<Vec<Vec<u8>>, String>) -> Result<
    Seq<Seq<u8>>,
    Seq<char>,
> {
    match r {
        Ok(certs) => Ok(certs_view(certs@)),
        Err(e) => Err(e@),
    }
}

/// What the `minijks` reader makes of a key store with a password: the DER of each of its
/// certificate entries, in the order of the store, or why it could not read the store.
pub uninterp spec fn minijks_reading(data: Seq<u8>, password: Seq<char>) -> Result<
    Seq<Seq<u8>>,
    Seq<char>,
>;

/// Calls `minijks::Store::parse` with the password and takes the DER of each certificate
/// entry, in the order of the store. Trusted: the reader works on the bytes and the password
/// alone, so what it gives has a name; nothing else is claimed of it. The reader stops the
/// program on an entry tag that it does not know, so such data is excluded.
#[verifier::external_body]
fn minijks_certificates(data: &[u8], password: &str) -> (r: Result<Vec<Vec<u8>>, String>)
    requires
        minijks_safe(data@),
    ensures
        certs_result(r) == minijks_reading(data@, password@),
{
    let options = minijks::Options { password: password.to_string(), ..Default::default() };
    match minijks::Store::parse(data, Some(options)) {
        Ok(store) => Ok(store.certs.into_iter().map(|c| c.certificate.raw).collect()),
        Err(e) => Err(e.to_string()),
    }
}

/// What the first reader gives for a key store: the certificates that the `minijks` reader
/// finds, where it can be given the data and reads it.
pub open spec fn first_reading(data: Seq<u8>, password: Seq<char>) -> Option<Seq<Seq<u8>>> {
    if minijks_safe(data) {
        match minijks_reading(data, password) {
            Ok(certs) => Some(certs),
            Err(_) => None,
        }
    } else {
        None
    }
}

/// The PEM bundle of the certificates that were chosen, or why none was.
pub open spec fn bundle_of(chosen: Result<Seq<Seq<u8>>, Seq<char>>) -> Result<
    Seq<char>,
    Seq<char>,
> {
    match chosen {
        Ok(certs) => Ok(pem_bundle(certs)),
        Err(e) => Err(e),
    }
}

/// Walks over a certificate as the `minijks` reader does.
fn walk_cert(data: &[u8], pos: usize) -> (r: Option<usize>)
    requires
        pos <= data.len(),
    ensures
        match r {
            Some(end) => walked_cert_end(data@, pos as int) == Some(end as int) && pos <= end
                <= data.len(),
            None => walked_cert_end(data@, pos as int) is None,
        },
{
    let type_end = match skip_utf(data, pos) {
        Ok(p) => p,
        Err(_) => {
            return None;
        },
    };
    let len = match read_u32(data, type_end) {
        Ok(n) => n,
        Err(_) => {
            return None;
        },
    };
    let from: usize = type_end + 4;
    if len as usize > data.len() - from {
        None
    } else {
        Some(from + len as usize)
    }
}

/// Walks over `count` certificates.
fn walk_chain(data: &[u8], pos: usize, count: u32) -> (r: Option<usize>)
    requires
        pos <= data.len(),
    ensures
        match r {
            Some(end) => walked_chain_end(data@, pos as int, count as nat) == Some(end as int)
                && pos <= end <= data.len(),
            None => walked_chain_end(data@, pos as int, count as nat) is None,
        },
{
    let mut at: usize = pos;
    let mut left: u32 = count;
    while left > 0
        invariant
            pos <= at <= data.len(),
            walked_chain_end(data@, pos as int, count as nat) == walked_chain_end(
                data@,
                at as int,
                left as nat,
            ),
        decreases left,
    {
        match walk_cert(data, at) {
            Some(p) => {
                at = p;
            },
            None => {
                return None;
            },
        }
        left = left - 1;
    }
    Some(at)
}

/// Walks over what follows the time of an entry.
fn walk_body(data: &[u8], pos: usize, tag: u32) -> (r: Option<usize>)
    requires
        pos <= data.len(),
    ensures
        match r {
            Some(end) => walked_body_end(data@, pos as int, tag) == Some(end as int) && pos <= end
                <= data.len(),
            None => walked_body_end(data@, pos as int, tag) is None,
        },
{
    if tag == MINIJKS_TAG_CERT {
        return walk_cert(data, pos);
    }
    let len = match read_u32(data, pos) {
        Ok(n) => n,
        Err(_) => {
            return None;
        },
    };
    let from: usize = pos + 4;
    if len as usize > data.len() - from {
        return None;
    }
    let key_end: usize = from + len as usize;
    let count = match read_u32(data, key_end) {
        Ok(n) => n,
        Err(_) => {
            return None;
        },
    };
    walk_chain(data, key_end + 4, count)
}

/// What the walk of one entry gave.
enum WalkStep {
    UnknownTag,
    Stop,
    Next(usize),
}

/// Walks over the entry at `pos`.
fn walk_entry(data: &[u8], pos: usize) -> (r: WalkStep)
    requires
        pos <= data.len(),
    ensures
        match r {
            WalkStep::UnknownTag => walked_entry(data@, pos as int) is UnknownTag,
            WalkStep::Stop => walked_entry(data@, pos as int) is Stop,
            WalkStep::Next(next) => walked_entry(data@, pos as int) == Walked::Next(next as int)
                && next <= data.len(),
        },
{
    let tag = match read_u32(data, pos) {
        Ok(t) => t,
        Err(_) => {
            return WalkStep::Stop;
        },
    };
    if tag != MINIJKS_TAG_KEY_PAIR && tag != MINIJKS_TAG_CERT {
        return WalkStep::UnknownTag;
    }
    let alias_end = match skip_utf(data, pos + 4) {
        Ok(p) => p,
        Err(_) => {
            return WalkStep::Stop;
        },
    };
    if data.len() - alias_end < 8 {
        return WalkStep::Stop;
    }
    match walk_body(data, alias_end + 8, tag) {
        Some(next) => WalkStep::Next(next),
        None => WalkStep::Stop,
    }
}

/// Whether the `minijks` reader can be given the data.
pub fn minijks_can_read(data: &[u8]) -> (r: bool)
    ensures
        r == minijks_safe(data@),
{
    let magic = match read_u32(data, 0) {
        Ok(m) => m,
        Err(_) => {
            return true;
        },
    };
    let version = match read_u32(data, 4) {
        Ok(v) => v,
        Err(_) => {
            return true;
        },
    };
    let count = match read_u32(data, 8) {
        Ok(c) => c,
        Err(_) => {
            return true;
        },
    };
    if magic != JKS_MAGIC || version != MINIJKS_VERSION {
        return true;
    }
    let mut at: usize = 12;
    let mut left: u32 = count;
    while left > 0
        invariant
            at <= data.len(),
            minijks_safe(data@) == walked_tags_known(data@, at as int, left as nat),
        decreases left,
    {
        match walk_entry(data, at) {
            WalkStep::UnknownTag => {
                return false;
            },
            WalkStep::Stop => {
                return true;
            },
            WalkStep::Next(next) => {
                at = next;
            },
        }
        left = left - 1;
    }
    true
}

/// Chooses between what the first reader gave for a key store and what this library's own
/// reader gives for it.
pub fn choose_certs(first: Option<Vec<Vec<u8>>>, data: &[u8]) -> (r: Result<
    Vec<Vec<u8>>,
    String,
>)
    ensures
        certs_result(r) == chosen_certs(
            match first {
                Some(c) => Some(certs_view(c@)),
                None => None,
            },
            jks_trusted_certs(data@),
        ),
{
    match first {
        Some(certs) => {
            if certs.len() > 0 {
                return Ok(certs);
            }
        },
        None => {},
    }
    match parse_jks_trusted_certs(data) {
        Ok(certs) => {
            if certs.len() > 0 {
                Ok(certs)
            } else {
                Err(owned("No certificates found in truststore"))
            }
        },
        Err(e) => Err(e.message()),
    }
}

/// Reads the trusted certificates of a Java key store and writes them as a PEM bundle.
///
/// The `minijks` reader is asked first, where it can be given the data; where it fails or
/// finds no certificate, this library's own reader is asked. The result is the bundle of
/// the certificates that `chosen_certs` chooses between the two.
pub fn jks_truststore_to_pem(data: &[u8], storepass: Option<&str>) -> (r: Result<String, String>)
    ensures
        result_text(r) == bundle_of(
            chosen_certs(
                first_reading(data@, password_text(storepass)),
                jks_trusted_certs(data@),
            ),
        ),
{
    let password = match storepass {
        Some(p) => p,
        None => "",
    };
    proof {
        reveal_strlit("");
        assert(password@ =~= password_text(storepass));
    }
    let first: Option<Vec<Vec<u8>>> = if minijks_can_read(data) {
        match minijks_certificates(data, password) {
            Ok(certs) => Some(certs),
            Err(_) => None,
        }
    } else {
        None
    };
    let ghost given = first;
    let ghost shown: Option<Seq<Seq<u8>>> = match given {
        Some(c) => Some(certs_view(c@)),
        None => None,
    };
    assert(shown == first_reading(data@, password_text(storepass)));
    match choose_certs(first, data) {
        Ok(certs) => Ok(pem_certificates(&certs)),
        Err(e) => Err(e),
    }
}

} // verus!
