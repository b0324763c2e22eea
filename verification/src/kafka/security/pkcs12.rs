use openssl::pkcs12::{ParsedPkcs12_2, Pkcs12};
use openssl::x509::X509Ref;
use vstd::prelude::*;
use crate::text::{chars_of, has_prefix, joined, owned};

verus! {

#[verifier::external_type_specification]
#[verifier::external_body]
pub struct ExPkcs12(Pkcs12);

#[verifier::external_type_specification]
#[verifier::external_body]
pub struct ExParsedPkcs12(ParsedPkcs12_2);

#[verifier::external_type_specification]
#[verifier::external_body]
pub struct ExX509Ref(X509Ref);

/// The archive that the bytes spell as DER, as the linked OpenSSL reads them; `None` where
/// they spell none.
pub uninterp spec fn pkcs12_archive(bytes: Seq<u8>) -> Option<Pkcs12>;

/// The certificate of an opened archive, if it has one.
pub uninterp spec fn leaf_of(parsed: ParsedPkcs12_2) -> Option<X509Ref>;

/// The certificates of the chain of an opened archive, in the order of its stack; none
/// where it has no chain.
pub uninterp spec fn chain_of(parsed: ParsedPkcs12_2) -> Seq<X509Ref>;

/// The certificate written as PEM by the linked OpenSSL; `None` where it cannot be written.
pub uninterp spec fn pem_of(cert: X509Ref) -> Option<Seq<u8>>;

/// Whether the bytes are a PKCS#12 archive in DER.
pub open spec fn is_pkcs12_der(bytes: Seq<u8>) -> bool {
    pkcs12_archive(bytes) is Some
}

/// The password can be handed to the PKCS#12 reader: it holds no NUL character.
pub open spec fn is_c_text(s: Seq<char>) -> bool {
    forall|i: int| 0 <= i < s.len() ==> #[trigger] s[i] != '\0'
}

/// The password that is used: the one given, or the empty one.
pub open spec fn password_text(password: Option<&str>) -> Seq<char> {
    match password {
        Some(p) => p@,
        None => Seq::empty(),
    }
}

/// The certificates of an opened archive in the order in which they are written: its own
/// certificate first, then those of its chain.
pub open spec fn certificates_of(parsed: ParsedPkcs12_2) -> Seq<X509Ref> {
    match leaf_of(parsed) {
        Some(cert) => seq![cert] + chain_of(parsed),
        None => chain_of(parsed),
    }
}

/// The first `n` certificates written as PEM, one behind the other; `None` where one of
/// them cannot be written.
pub open spec fn pem_of_first(certs: Seq<X509Ref>, n: int) -> Option<Seq<u8>>
    decreases n,
{
    if n <= 0 {
        Some(Seq::empty())
    } else {
        match (pem_of_first(certs, n - 1), pem_of(certs[n - 1])) {
            (Some(before), Some(pem)) => Some(before + pem),
            _ => None,
        }
    }
}

/// The bundle of an opened archive: all its certificates as PEM, one behind the other.
pub open spec fn bundle_of_archive(parsed: ParsedPkcs12_2) -> Option<Seq<u8>> {
    pem_of_first(certificates_of(parsed), certificates_of(parsed).len() as int)
}

/// Whether `r` is the bundle of an opened archive: all its certificates as PEM, one behind
/// the other; an error where one of them cannot be written, or where it holds none.
pub open spec fn bundle_answer(parsed: ParsedPkcs12_2, r: Result<Seq<u8>, Seq<char>>) -> bool {
    match bundle_of_archive(parsed) {
        None => r is Err,
        Some(bundle) => if certificates_of(parsed).len() == 0 {
            r == Err::<Seq<u8>, Seq<char>>("PKCS#12 archive does not contain any certificates"@)
        } else {
            r == Ok::<Seq<u8>, Seq<char>>(bundle)
        },
    }
}

/// Whether `r` is an answer for an archive given as `der` with a password.
///
/// A password with a NUL character is refused. Bytes that are no archive give an error that
/// begins with `Failed to read PKCS#12: `. For an archive, whether it opens with the
/// password is for the linked OpenSSL and what it has loaded to say: the answer is an error
/// that begins with `Failed to parse PKCS#12: `, or the bundle of what opening it found.
pub open spec fn bundled(der: Seq<u8>, password: Seq<char>, r: Result<Seq<u8>, Seq<char>>) -> bool {
    if !is_c_text(password) {
        r == Err::<Seq<u8>, Seq<char>>(
            "Failed to parse PKCS#12: the password holds a NUL character"@,
        )
    } else {
        match pkcs12_archive(der) {
            None => r is Err && has_prefix(r->Err_0, "Failed to read PKCS#12: "@),
            Some(_) => (r is Err && has_prefix(r->Err_0, "Failed to parse PKCS#12: "@))
                || exists|parsed: ParsedPkcs12_2| #[trigger] bundle_answer(parsed, r),
        }
    }
}

/// Calls `Pkcs12::from_der`. Trusted: OpenSSL reads the archive from the bytes alone, so the
/// archive has a name; otherwise the call says what is wrong, of which nothing is claimed.
#[verifier::external_body]
pub(crate) fn pkcs12_from_der(der: &[u8]) -> (r: Result<Pkcs12, String>)
    ensures
        match r {
            Ok(archive) => pkcs12_archive(der@) == Some(archive),
            Err(_) => pkcs12_archive(der@) is None,
        },
{
    Pkcs12::from_der(der).map_err(|e| e.to_string())
}

/// Calls `Pkcs12Ref::parse2`, which stops the program on a password with a NUL character,
/// so such a password is excluded. Whether the archive opens depends on what the linked
/// OpenSSL has loaded, so nothing is claimed of which outcome comes.
#[verifier::external_body]
fn pkcs12_parse(archive: &Pkcs12, password: &str) -> (r: Result<ParsedPkcs12_2, String>)
    requires
        is_c_text(password@),
{
    archive.parse2(password).map_err(|e| e.to_string())
}

/// Picks the certificate of an opened archive, if it has one.
#[verifier::external_body]
fn leaf_certificate(parsed: &ParsedPkcs12_2) -> (r: Option<&X509Ref>)
    ensures
        match r {
            Some(cert) => leaf_of(*parsed) == Some(*cert),
            None => leaf_of(*parsed) is None,
        },
{
    parsed.cert.as_deref()
}

/// Calls `Stack::len` on the chain of an opened archive; zero where it has none. Trusted:
/// this is the number of certificates of the chain.
#[verifier::external_body]
fn chain_length(parsed: &ParsedPkcs12_2) -> (r: usize)
    ensures
        r == chain_of(*parsed).len(),
{
    parsed.ca.as_ref().map(|stack| stack.len()).unwrap_or(0)
}

/// Calls `Stack::get` on the chain of an opened archive. Trusted: it gives the certificate
/// at this index of the chain, and `None` exactly where the chain has no such index.
#[verifier::external_body]
fn chain_certificate(parsed: &ParsedPkcs12_2, index: usize) -> (r: Option<&X509Ref>)
    ensures
        match r {
            Some(cert) => index < chain_of(*parsed).len() && chain_of(*parsed)[index as int]
                == *cert,
            None => index >= chain_of(*parsed).len(),
        },
{
    parsed.ca.as_ref().and_then(|stack| stack.get(index))
}

/// Calls `X509Ref::to_pem`. Trusted: the PEM is written from the certificate alone, so it
/// has a name; of the words of a failure nothing is claimed.
#[verifier::external_body]
fn certificate_pem(cert: &X509Ref) -> (r: Result<Vec<u8>, String>)
    ensures
        match r {
            Ok(pem) => pem_of(*cert) == Some(pem@),
            Err(_) => pem_of(*cert) is None,
        },
{
    cert.to_pem().map_err(|e| e.to_string())
}

/// Whether the password holds no NUL character.
fn c_text(password: &str) -> (r: bool)
    ensures
        r == is_c_text(password@),
{
    let chars = chars_of(password);
    let mut i: usize = 0;
    while i < chars.len()
        invariant
            i <= chars.len(),
            chars@ == password@,
            forall|j: int| 0 <= j < i ==> #[trigger] chars@[j] != '\0',
        decreases chars.len() - i,
    {
        if chars[i] == '\0' {
            return false;
        }
        i += 1;
    }
    true
}

/// Appends the bytes of `part` to `out`.
fn append_bytes(out: &mut Vec<u8>, part: &Vec<u8>)
    ensures
        final(out)@ == old(out)@ + part@,
{
    let mut i: usize = 0;
    while i < part.len()
        invariant
            i <= part.len(),
            out@ == old(out)@ + part@.subrange(0, i as int),
        decreases part.len() - i,
    {
        out.push(part[i]);
        assert(out@ =~= old(out)@ + part@.subrange(0, i + 1));
        i += 1;
    }
    assert(part@.subrange(0, part@.len() as int) =~= part@);
}

/// Writes the certificate of an opened archive and those of its chain as one PEM bundle: its
/// own certificate first, then those of its chain in their order. It is an error where a
/// certificate cannot be written or the archive holds none; a bundle is never empty of
/// certificates.
pub fn bundle_parsed(parsed: &ParsedPkcs12_2) -> (r: Result<Vec<u8>, String>)
    ensures
        bundle_answer(*parsed, bytes_result(r)),
{
    let ghost certs = certificates_of(*parsed);
    let mut out: Vec<u8> = Vec::new();
    let mut wrote_any: bool = false;
    let ghost mut lead: int = 0;
    match leaf_certificate(parsed) {
        Some(cert) => {
            proof {
                lead = 1;
                assert(certs[0] == *cert);
            }
            match certificate_pem(cert) {
                Ok(pem) => {
                    append_bytes(&mut out, &pem);
                    wrote_any = true;
                    assert(pem_of_first(certs, 0) == Some(Seq::<u8>::empty()));
                    assert(out@ =~= pem@);
                    assert(Seq::<u8>::empty() + pem@ =~= pem@);
                },
                Err(e) => {
                    proof {
                        lemma_unwritten_stays(certs, 1, certs.len() as int);
                    }
                    return Err(e);
                },
            }
        },
        None => {},
    }
    let count = chain_length(parsed);
    let mut i: usize = 0;
    while i < count
        invariant
            i <= count,
            count == chain_of(*parsed).len(),
            certs == certificates_of(*parsed),
            certs.len() == lead + count,
            lead == (if leaf_of(*parsed) is Some { 1int } else { 0int }),
            wrote_any == (lead + i > 0),
            pem_of_first(certs, lead + i) == Some(out@),
        decreases count - i,
    {
        match chain_certificate(parsed, i) {
            Some(cert) => {
                assert(certs[lead + i] == *cert);
                match certificate_pem(cert) {
                    Ok(pem) => {
                        append_bytes(&mut out, &pem);
                        wrote_any = true;
                    },
                    Err(e) => {
                        proof {
                            lemma_unwritten_stays(certs, lead + i + 1, certs.len() as int);
                        }
                        return Err(e);
                    },
                }
            },
            None => {
                return Err(owned("Invalid certificate stack index"));
            },
        }
        i += 1;
    }
    if !wrote_any {
        return Err(owned("PKCS#12 archive does not contain any certificates"));
    }
    Ok(out)
}

/// Writes the certificate of a PKCS#12 archive and those of its chain as one PEM bundle.
///
/// The answer is an error where the password holds a NUL character, the bytes are no
/// archive, or the archive does not open with the password; else it is what `bundle_parsed`
/// gives for what opening the archive found.
pub fn pkcs12_to_pem(der: &[u8], password: Option<&str>) -> (r: Result<Vec<u8>, String>)
    ensures
        bundled(der@, password_text(password), bytes_result(r)),
{
    let pass = match password {
        Some(p) => p,
        None => "",
    };
    proof {
        reveal_strlit("");
        assert(pass@ =~= password_text(password));
    }
    if !c_text(pass) {
        return Err(owned("Failed to parse PKCS#12: the password holds a NUL character"));
    }
    let archive = match pkcs12_from_der(der) {
        Ok(a) => a,
        Err(e) => {
            let text = joined("Failed to read PKCS#12: ", e.as_str());
            assert(text@.subrange(0, "Failed to read PKCS#12: "@.len() as int)
                =~= "Failed to read PKCS#12: "@);
            return Err(text);
        },
    };
    let parsed = match pkcs12_parse(&archive, pass) {
        Ok(p) => p,
        Err(e) => {
            let text = joined("Failed to parse PKCS#12: ", e.as_str());
            assert(text@.subrange(0, "Failed to parse PKCS#12: "@.len() as int)
                =~= "Failed to parse PKCS#12: "@);
            return Err(text);
        },
    };
    let r = bundle_parsed(&parsed);
    assert(bundle_answer(parsed, bytes_result(r)));
    r
}

/// Where the first `n` certificates cannot all be written, no more of them can.
pub proof fn lemma_unwritten_stays(certs: Seq<X509Ref>, n: int, m: int)
    requires
        0 <= n <= m,
        pem_of_first(certs, n) is None,
    ensures
        pem_of_first(certs, m) is None,
    decreases m - n,
{
    if n < m {
        lemma_unwritten_stays(certs, n, m - 1);
    }
}

/// The bytes or the text of a result.
pub open spec fn bytes_result(r: Result<Vec<u8>, String>) -> Result<Seq<u8>, Seq<char>> {
    match r {
        Ok(bytes) => Ok(bytes@),
        Err(e) => Err(e@),
    }
}

} // verus!
