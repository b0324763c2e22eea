use vstd::prelude::*;
use crate::text::{int_text, joined, natural_text, owned};

verus! {

/// Why a key store could not be read.
#[derive(Debug, Clone, Copy)]
pub enum JksError {
    /// The data ends inside a number.
    Truncated,
    /// The data does not begin with the magic number of a key store.
    BadMagic,
    /// A text states a length of `0` bytes where only `1` are left.
    UtfTooLong(usize, usize),
    /// A certificate states a length of `0` bytes where only `1` are left.
    CertificateTooLong(usize, usize),
    /// A private key states a length of `0` bytes where only `1` are left.
    PrivateKeyTooLong(usize, usize),
    /// A certificate of a chain states a length of `0` bytes where only `1` are left.
    ChainCertificateTooLong(usize, usize),
    /// An entry has a tag that is neither that of a trusted certificate nor that of a
    /// private key.
    UnsupportedTag(u32),
}

/// The magic number that a key store begins with.
pub const JKS_MAGIC: u32 = 0xFEED_FEED;

/// Tag of an entry that holds a trusted certificate.
pub const TAG_TRUSTED_CERT: u32 = 1;

/// Tag of an entry that holds a private key and its chain.
pub const TAG_PRIVATE_KEY: u32 = 2;

/// A length together with the bytes that were left for it, in words.
pub open spec fn exceeds_text(what: Seq<char>, len: usize, left: usize) -> Seq<char> {
    "Malformed JKS: "@ + what + " length "@ + int_text(len as int) + " exceeds remaining bytes "@
        + int_text(left as int)
}

impl JksError {
    /// The error in words.
    pub open spec fn text(&self) -> Seq<char> {
        match self {
            JksError::Truncated => "failed to fill whole buffer"@,
            JksError::BadMagic => "Not a JKS file (bad magic)"@,
            JksError::UtfTooLong(len, left) => exceeds_text("UTF"@, *len, *left),
            JksError::CertificateTooLong(len, left) => exceeds_text("certificate"@, *len, *left),
            JksError::PrivateKeyTooLong(len, left) => exceeds_text("private key"@, *len, *left),
            JksError::ChainCertificateTooLong(len, left) => exceeds_text(
                "chain certificate"@,
                *len,
                *left,
            ),
            JksError::UnsupportedTag(tag) => "Unsupported JKS entry tag: "@ + int_text(
                *tag as int,
            ),
        }
    }

    /// The error in words.
    pub fn message(&self) -> (s: String)
        ensures
            s@ == self.text(),
    {
        match self {
            JksError::Truncated => owned("failed to fill whole buffer"),
            JksError::BadMagic => owned("Not a JKS file (bad magic)"),
            JksError::UtfTooLong(len, left) => exceeds("UTF", *len, *left),
            JksError::CertificateTooLong(len, left) => exceeds("certificate", *len, *left),
            JksError::PrivateKeyTooLong(len, left) => exceeds("private key", *len, *left),
            JksError::ChainCertificateTooLong(len, left) => exceeds(
                "chain certificate",
                *len,
                *left,
            ),
            JksError::UnsupportedTag(tag) => joined(
                "Unsupported JKS entry tag: ",
                natural_text(*tag as u64).as_str(),
            ),
        }
    }
}

/// The number that the two bytes at `pos` spell, most significant first.
pub open spec fn be16_at(data: Seq<u8>, pos: int) -> int {
    data[pos] * 0x100 + data[pos + 1]
}

/// The number that the four bytes at `pos` spell, most significant first.
pub open spec fn be32_at(data: Seq<u8>, pos: int) -> int {
    data[pos] * 0x100_0000 + data[pos + 1] * 0x1_0000 + data[pos + 2] * 0x100 + data[pos + 3]
}

/// The number at `pos`, if four bytes are there.
pub open spec fn u32_at(data: Seq<u8>, pos: int) -> Result<u32, JksError> {
    if 0 <= pos && pos + 4 <= data.len() {
        Ok(be32_at(data, pos) as u32)
    } else {
        Err(JksError::Truncated)
    }
}

/// The position behind a block of `len` bytes at `pos`; the error `over` where fewer bytes
/// are left.
pub open spec fn block_end(data: Seq<u8>, pos: int, len: int, over: JksError) -> Result<
    int,
    JksError,
> {
    if pos + len <= data.len() {
        Ok(pos + len)
    } else {
        Err(over)
    }
}

/// The position behind the text at `pos`: two bytes of length, then as many bytes.
pub open spec fn utf_end(data: Seq<u8>, pos: int) -> Result<int, JksError> {
    if !(0 <= pos && pos + 2 <= data.len()) {
        Err(JksError::Truncated)
    } else {
        block_end(
            data,
            pos + 2,
            be16_at(data, pos),
            JksError::UtfTooLong(be16_at(data, pos) as usize, (data.len() - (pos + 2)) as usize),
        )
    }
}

/// The position behind `count` attributes at `pos`, each a name and a value.
pub open spec fn attributes_end(data: Seq<u8>, pos: int, count: nat) -> Result<int, JksError>
    decreases count,
{
    if count == 0 {
        Ok(pos)
    } else {
        match utf_end(data, pos) {
            Err(e) => Err(e),
            Ok(p) => match utf_end(data, p) {
                Err(e) => Err(e),
                Ok(q) => attributes_end(data, q, (count - 1) as nat),
            },
        }
    }
}

/// The position behind what follows an entry: nothing in a store of version one; in a
/// later one a count and as many attributes.
pub open spec fn entry_tail_end(data: Seq<u8>, pos: int, version: u32) -> Result<int, JksError> {
    if version >= 2 {
        match u32_at(data, pos) {
            Err(e) => Err(e),
            Ok(count) => attributes_end(data, pos + 4, count as nat),
        }
    } else {
        Ok(pos)
    }
}

/// The position behind a chain of `count` certificates at `pos`, each a type and a block
/// of bytes with its length in front.
pub open spec fn chain_end(data: Seq<u8>, pos: int, count: nat) -> Result<int, JksError>
    decreases count,
{
    if count == 0 {
        Ok(pos)
    } else {
        match utf_end(data, pos) {
            Err(e) => Err(e),
            Ok(p) => match u32_at(data, p) {
                Err(e) => Err(e),
                Ok(len) => match block_end(
                    data,
                    p + 4,
                    len as int,
                    JksError::ChainCertificateTooLong(
                        len as usize,
                        (data.len() - (p + 4)) as usize,
                    ),
                ) {
                    Err(e) => Err(e),
                    Ok(q) => chain_end(data, q, (count - 1) as nat),
                },
            },
        }
    }
}

/// The certificate of a trusted entry whose type begins at `pos`, and the position behind
/// the entry.
pub open spec fn trusted_entry(data: Seq<u8>, pos: int, version: u32) -> Result<
    (Seq<u8>, int),
    JksError,
> {
    match utf_end(data, pos) {
        Err(e) => Err(e),
        Ok(p) => match u32_at(data, p) {
            Err(e) => Err(e),
            Ok(len) => match block_end(
                data,
                p + 4,
                len as int,
                JksError::CertificateTooLong(len as usize, (data.len() - (p + 4)) as usize),
            ) {
                Err(e) => Err(e),
                Ok(q) => match entry_tail_end(data, q, version) {
                    Err(e) => Err(e),
                    Ok(end) => Ok((data.subrange(p + 4, q), end)),
                },
            },
        },
    }
}

/// The position behind a private key entry whose key begins at `pos`.
pub open spec fn key_entry_end(data: Seq<u8>, pos: int, version: u32) -> Result<int, JksError> {
    match u32_at(data, pos) {
        Err(e) => Err(e),
        Ok(len) => match block_end(
            data,
            pos + 4,
            len as int,
            JksError::PrivateKeyTooLong(len as usize, (data.len() - (pos + 4)) as usize),
        ) {
            Err(e) => Err(e),
            Ok(p) => match u32_at(data, p) {
                Err(e) => Err(e),
                Ok(count) => match chain_end(data, p + 4, count as nat) {
                    Err(e) => Err(e),
                    Ok(q) => entry_tail_end(data, q, version),
                },
            },
        },
    }
}

/// The entry at `pos`: its certificate if it is a trusted one, and the position behind it.
/// An entry is a tag, an alias, eight bytes of time, and what its tag calls for.
pub open spec fn entry_at(data: Seq<u8>, pos: int, version: u32) -> Result<
    (Option<Seq<u8>>, int),
    JksError,
> {
    match u32_at(data, pos) {
        Err(e) => Err(e),
        Ok(tag) => match utf_end(data, pos + 4) {
            Err(e) => Err(e),
            Ok(p) => if p + 8 > data.len() {
                Err(JksError::Truncated)
            } else if tag == TAG_TRUSTED_CERT {
                match trusted_entry(data, p + 8, version) {
                    Err(e) => Err(e),
                    Ok((cert, end)) => Ok((Some(cert), end)),
                }
            } else if tag == TAG_PRIVATE_KEY {
                match key_entry_end(data, p + 8, version) {
                    Err(e) => Err(e),
                    Ok(end) => Ok((None, end)),
                }
            } else {
                Err(JksError::UnsupportedTag(tag))
            },
        },
    }
}

/// The certificates of the `count` entries that begin at `pos`, in order.
pub open spec fn entries_from(data: Seq<u8>, pos: int, count: nat, version: u32) -> Result<
    Seq<Seq<u8>>,
    JksError,
>
    decreases count,
{
    if count == 0 {
        Ok(Seq::empty())
    } else {
        match entry_at(data, pos, version) {
            Err(e) => Err(e),
            Ok((cert, next)) => match entries_from(data, next, (count - 1) as nat, version) {
                Err(e) => Err(e),
                Ok(rest) => Ok(
                    match cert {
                        Some(c) => seq![c] + rest,
                        None => rest,
                    },
                ),
            },
        }
    }
}

/// The trusted certificates of a key store, each in DER, in the order of the store: a
/// magic number, a version, a count, and as many entries. What follows the entries, the
/// checksum of the store, is not looked at.
pub open spec fn jks_trusted_certs(data: Seq<u8>) -> Result<Seq<Seq<u8>>, JksError> {
    match u32_at(data, 0) {
        Err(e) => Err(e),
        Ok(magic) => if magic != JKS_MAGIC {
            Err(JksError::BadMagic)
        } else {
            match u32_at(data, 4) {
                Err(e) => Err(e),
                Ok(version) => match u32_at(data, 8) {
                    Err(e) => Err(e),
                    Ok(count) => entries_from(data, 12, count as nat, version),
                },
            }
        },
    }
}

/// The bytes of each certificate of a list.
pub open spec fn certs_view(certs: Seq<Vec<u8>>) -> Seq<Seq<u8>> {
    certs.map_values(|c: Vec<u8>| c@)
}

/// What is read when `acc` was read so far and `rest` is what the rest gives.
pub open spec fn certs_then(acc: Seq<Seq<u8>>, rest: Result<Seq<Seq<u8>>, JksError>) -> Result<
    Seq<Seq<u8>>,
    JksError,
> {
    match rest {
        Ok(r) => Ok(acc + r),
        Err(e) => Err(e),
    }
}

/// Says that a length exceeds what is left.
fn exceeds(what: &str, len: usize, left: usize) -> (r: String)
    ensures
        r@ == exceeds_text(what@, len, left),
{
    let mut text = joined("Malformed JKS: ", what);
    text.append(" length ");
    text.append(natural_text(len as u64).as_str());
    text.append(" exceeds remaining bytes ");
    text.append(natural_text(left as u64).as_str());
    text
}

/// Reads the number at `pos`.
pub fn read_u32(data: &[u8], pos: usize) -> (r: Result<u32, JksError>)
    requires
        pos <= data.len(),
    ensures
        r == u32_at(data@, pos as int),
{
    if data.len() - pos < 4 {
        return Err(JksError::Truncated);
    }
    let value: u32 = (data[pos] as u32) * 0x100_0000 + (data[pos + 1] as u32) * 0x1_0000 + (
    data[pos + 2] as u32) * 0x100 + (data[pos + 3] as u32);
    Ok(value)
}

/// Passes over a block of `len` bytes at `pos`.
fn skip_block(data: &[u8], pos: usize, len: usize, over: JksError) -> (r: Result<usize, JksError>)
    requires
        pos <= data.len(),
    ensures
        match r {
            Ok(end) => block_end(data@, pos as int, len as int, over) == Ok::<int, JksError>(
                end as int,
            ) && pos <= end <= data.len(),
            Err(e) => block_end(data@, pos as int, len as int, over) == Err::<int, JksError>(e),
        },
{
    if len > data.len() - pos {
        Err(over)
    } else {
        Ok(pos + len)
    }
}

/// Passes over the text at `pos`.
pub fn skip_utf(data: &[u8], pos: usize) -> (r: Result<usize, JksError>)
    requires
        pos <= data.len(),
    ensures
        match r {
            Ok(end) => utf_end(data@, pos as int) == Ok::<int, JksError>(end as int) && pos <= end
                <= data.len(),
            Err(e) => utf_end(data@, pos as int) == Err::<int, JksError>(e),
        },
{
    if data.len() - pos < 2 {
        return Err(JksError::Truncated);
    }
    let len: usize = (data[pos] as usize) * 0x100 + (data[pos + 1] as usize);
    skip_block(data, pos + 2, len, JksError::UtfTooLong(len, data.len() - (pos + 2)))
}

/// Passes over `count` attributes at `pos`.
fn skip_attributes(data: &[u8], pos: usize, count: u32) -> (r: Result<usize, JksError>)
    requires
        pos <= data.len(),
    ensures
        match r {
            Ok(end) => attributes_end(data@, pos as int, count as nat) == Ok::<int, JksError>(
                end as int,
            ) && pos <= end <= data.len(),
            Err(e) => attributes_end(data@, pos as int, count as nat) == Err::<int, JksError>(e),
        },
{
    let mut at: usize = pos;
    let mut left: u32 = count;
    while left > 0
        invariant
            pos <= at <= data.len(),
            attributes_end(data@, pos as int, count as nat) == attributes_end(
                data@,
                at as int,
                left as nat,
            ),
        decreases left,
    {
        let key_end = match skip_utf(data, at) {
            Ok(p) => p,
            Err(e) => {
                return Err(e);
            },
        };
        let value_end = match skip_utf(data, key_end) {
            Ok(p) => p,
            Err(e) => {
                return Err(e);
            },
        };
        at = value_end;
        left = left - 1;
    }
    Ok(at)
}

/// Passes over what follows an entry.
fn skip_entry_tail(data: &[u8], pos: usize, version: u32) -> (r: Result<usize, JksError>)
    requires
        pos <= data.len(),
    ensures
        match r {
            Ok(end) => entry_tail_end(data@, pos as int, version) == Ok::<int, JksError>(
                end as int,
            ) && pos <= end <= data.len(),
            Err(e) => entry_tail_end(data@, pos as int, version) == Err::<int, JksError>(e),
        },
{
    if version >= 2 {
        let count = match read_u32(data, pos) {
            Ok(c) => c,
            Err(e) => {
                return Err(e);
            },
        };
        skip_attributes(data, pos + 4, count)
    } else {
        Ok(pos)
    }
}

/// Passes over a chain of `count` certificates at `pos`.
fn skip_chain(data: &[u8], pos: usize, count: u32) -> (r: Result<usize, JksError>)
    requires
        pos <= data.len(),
    ensures
        match r {
            Ok(end) => chain_end(data@, pos as int, count as nat) == Ok::<int, JksError>(
                end as int,
            ) && pos <= end <= data.len(),
            Err(e) => chain_end(data@, pos as int, count as nat) == Err::<int, JksError>(e),
        },
{
    let mut at: usize = pos;
    let mut left: u32 = count;
    while left > 0
        invariant
            pos <= at <= data.len(),
            chain_end(data@, pos as int, count as nat) == chain_end(data@, at as int, left as nat),
        decreases left,
    {
        let type_end = match skip_utf(data, at) {
            Ok(p) => p,
            Err(e) => {
                return Err(e);
            },
        };
        let len = match read_u32(data, type_end) {
            Ok(n) => n,
            Err(e) => {
                return Err(e);
            },
        };
        let body: usize = type_end + 4;
        let end = match skip_block(
            data,
            body,
            len as usize,
            JksError::ChainCertificateTooLong(len as usize, data.len() - body),
        ) {
            Ok(p) => p,
            Err(e) => {
                return Err(e);
            },
        };
        at = end;
        left = left - 1;
    }
    Ok(at)
}

/// Copies the bytes from `from` up to `to`.
fn copy_range(data: &[u8], from: usize, to: usize) -> (r: Vec<u8>)
    requires
        from <= to <= data.len(),
    ensures
        r@ == data@.subrange(from as int, to as int),
{
    let mut out: Vec<u8> = Vec::new();
    let mut i: usize = from;
    while i < to
        invariant
            from <= i <= to,
            to <= data.len(),
            out@ == data@.subrange(from as int, i as int),
        decreases to - i,
    {
        out.push(data[i]);
        assert(out@ =~= data@.subrange(from as int, i + 1));
        i += 1;
    }
    out
}

/// Reads the entry at `pos`.
fn read_entry(data: &[u8], pos: usize, version: u32) -> (r: Result<(Option<Vec<u8>>, usize), JksError>)
    requires
        pos <= data.len(),
    ensures
        match r {
            Ok((cert, end)) => pos <= end <= data.len() && entry_at(data@, pos as int, version)
                == Ok::<(Option<Seq<u8>>, int), JksError>(
                (
                    match cert {
                        Some(c) => Some(c@),
                        None => None,
                    },
                    end as int,
                ),
            ),
            Err(e) => entry_at(data@, pos as int, version) == Err::<
                (Option<Seq<u8>>, int),
                JksError,
            >(e),
        },
{
    let tag = match read_u32(data, pos) {
        Ok(t) => t,
        Err(e) => {
            return Err(e);
        },
    };
    let alias_end = match skip_utf(data, pos + 4) {
        Ok(p) => p,
        Err(e) => {
            return Err(e);
        },
    };
    if data.len() - alias_end < 8 {
        return Err(JksError::Truncated);
    }
    let body: usize = alias_end + 8;
    if tag == TAG_TRUSTED_CERT {
        let type_end = match skip_utf(data, body) {
            Ok(p) => p,
            Err(e) => {
                return Err(e);
            },
        };
        let len = match read_u32(data, type_end) {
            Ok(n) => n,
            Err(e) => {
                return Err(e);
            },
        };
        let from: usize = type_end + 4;
        let to = match skip_block(
            data,
            from,
            len as usize,
            JksError::CertificateTooLong(len as usize, data.len() - from),
        ) {
            Ok(p) => p,
            Err(e) => {
                return Err(e);
            },
        };
        let end = match skip_entry_tail(data, to, version) {
            Ok(p) => p,
            Err(e) => {
                return Err(e);
            },
        };
        Ok((Some(copy_range(data, from, to)), end))
    } else if tag == TAG_PRIVATE_KEY {
        let len = match read_u32(data, body) {
            Ok(n) => n,
            Err(e) => {
                return Err(e);
            },
        };
        let key_from: usize = body + 4;
        let key_end = match skip_block(
            data,
            key_from,
            len as usize,
            JksError::PrivateKeyTooLong(len as usize, data.len() - key_from),
        ) {
            Ok(p) => p,
            Err(e) => {
                return Err(e);
            },
        };
        let count = match read_u32(data, key_end) {
            Ok(n) => n,
            Err(e) => {
                return Err(e);
            },
        };
        let chain = match skip_chain(data, key_end + 4, count) {
            Ok(p) => p,
            Err(e) => {
                return Err(e);
            },
        };
        match skip_entry_tail(data, chain, version) {
            Ok(end) => Ok((None, end)),
            Err(e) => Err(e),
        }
    } else {
        Err(JksError::UnsupportedTag(tag))
    }
}

/// Reads the trusted certificates out of a key store in the JKS layout. Private key
/// entries are passed over; the checksum of the store is not verified.
pub fn parse_jks_trusted_certs(data: &[u8]) -> (r: Result<Vec<Vec<u8>>, JksError>)
    ensures
        match r {
            Ok(certs) => jks_trusted_certs(data@) == Ok::<Seq<Seq<u8>>, JksError>(
                certs_view(certs@),
            ),
            Err(e) => jks_trusted_certs(data@) == Err::<Seq<Seq<u8>>, JksError>(e),
        },
{
    let magic = match read_u32(data, 0) {
        Ok(m) => m,
        Err(e) => {
            return Err(e);
        },
    };
    if magic != JKS_MAGIC {
        return Err(JksError::BadMagic);
    }
    let version = match read_u32(data, 4) {
        Ok(v) => v,
        Err(e) => {
            return Err(e);
        },
    };
    let count = match read_u32(data, 8) {
        Ok(c) => c,
        Err(e) => {
            return Err(e);
        },
    };
    let mut certs: Vec<Vec<u8>> = Vec::new();
    let mut at: usize = 12;
    let mut left: u32 = count;
    assert(certs_view(certs@) + entries_from(data@, 12, count as nat, version)->Ok_0
        =~= entries_from(data@, 12, count as nat, version)->Ok_0);
    while left > 0
        invariant
            at <= data.len(),
            jks_trusted_certs(data@) == certs_then(
                certs_view(certs@),
                entries_from(data@, at as int, left as nat, version),
            ),
        decreases left,
    {
        let ghost before = certs_view(certs@);
        let (cert, next) = match read_entry(data, at, version) {
            Ok(e) => e,
            Err(e) => {
                return Err(e);
            },
        };
        let ghost read = cert;
        proof {
            match entries_from(data@, next as int, (left - 1) as nat, version) {
                Ok(rest) => {
                    match read {
                        Some(c) => {
                            assert(before + (seq![c@] + rest) =~= before.push(c@) + rest);
                        },
                        None => {},
                    }
                },
                Err(_) => {},
            }
        }
        match cert {
            Some(c) => {
                certs.push(c);
                assert(certs_view(certs@) =~= before.push(c@));
            },
            None => {},
        }
        at = next;
        left = left - 1;
    }
    assert(certs_view(certs@) + Seq::<Seq<u8>>::empty() =~= certs_view(certs@));
    Ok(certs)
}

} // verus!
