use vstd::prelude::*;
use super::jks::certs_view;
use crate::text::owned;

verus! {

/// The standard base64 text of a byte string, with padding.
pub uninterp spec fn base64_text(bytes: Seq<u8>) -> Seq<char>;

/// Calls `Engine::encode` on `base64::engine::general_purpose::STANDARD`. Trusted: the
/// result is the standard base64 text of the bytes.
#[verifier::external_body]
fn base64_standard(bytes: &[u8]) -> (r: String)
    ensures
        r@ == base64_text(bytes@),
{
    base64::Engine::encode(&base64::engine::general_purpose::STANDARD, bytes)
}

/// Number of base64 characters on one line of a PEM block.
pub const PEM_LINE: usize = 64;

/// The text cut into lines of sixty-four characters, the last one as long as what is left,
/// each with a line feed behind it.
pub open spec fn pem_lines(text: Seq<char>) -> Seq<char>
    decreases text.len(),
{
    if text.len() == 0 {
        Seq::empty()
    } else if text.len() <= PEM_LINE {
        text + seq!['\n']
    } else {
        text.subrange(0, PEM_LINE as int) + seq!['\n'] + pem_lines(
            text.subrange(PEM_LINE as int, text.len() as int),
        )
    }
}

/// A certificate as a PEM block.
pub open spec fn pem_block(der: Seq<u8>) -> Seq<char> {
    "-----BEGIN CERTIFICATE-----\n"@ + pem_lines(base64_text(der))
        + "-----END CERTIFICATE-----\n"@
}

/// The certificates as PEM blocks, one behind the other.
pub open spec fn pem_bundle(certs: Seq<Seq<u8>>) -> Seq<char>
    decreases certs.len(),
{
    if certs.len() == 0 {
        Seq::empty()
    } else {
        pem_bundle(certs.drop_last()) + pem_block(certs.last())
    }
}

/// Writes a certificate as a PEM block.
pub fn pem_certificate(der: &[u8]) -> (r: String)
    ensures
        r@ == pem_block(der@),
{
    let encoded = base64_standard(der);
    let text = encoded.as_str();
    let n: usize = text.unicode_len();
    let mut out = owned("-----BEGIN CERTIFICATE-----\n");
    let mut at: usize = 0;
    assert(text@.subrange(0, n as int) =~= text@);
    while at < n
        invariant
            at <= n,
            n == text@.len(),
            out@ + pem_lines(text@.subrange(at as int, n as int))
                == "-----BEGIN CERTIFICATE-----\n"@ + pem_lines(text@),
        decreases n - at,
    {
        let ghost rest = text@.subrange(at as int, n as int);
        let ghost before = out@;
        let end: usize = if n - at <= PEM_LINE {
            n
        } else {
            at + PEM_LINE
        };
        let line = text.substring_char(at, end);
        out.append(line);
        out.append("\n");
        proof {
            reveal_strlit("\n");
            assert("\n"@ =~= seq!['\n']);
            assert(line@ =~= rest.subrange(0, end - at));
            let tail = text@.subrange(end as int, n as int);
            assert(tail =~= rest.subrange(end - at, rest.len() as int));
            if rest.len() <= PEM_LINE {
                assert(rest.subrange(0, end - at) =~= rest);
                assert(pem_lines(tail) =~= Seq::<char>::empty());
                assert(out@ + pem_lines(tail) =~= before + pem_lines(rest));
            } else {
                assert(out@ + pem_lines(tail) =~= before + (rest.subrange(0, PEM_LINE as int)
                    + seq!['\n'] + pem_lines(tail)));
            }
        }
        at = end;
    }
    assert(pem_lines(text@.subrange(at as int, n as int)) =~= Seq::<char>::empty());
    assert(out@ + Seq::<char>::empty() =~= out@);
    out.append("-----END CERTIFICATE-----\n");
    out
}

/// Writes the certificates as PEM blocks, one behind the other.
pub fn pem_certificates(certs: &Vec<Vec<u8>>) -> (r: String)
    ensures
        r@ == pem_bundle(certs_view(certs@)),
{
    let mut out = String::new();
    let mut i: usize = 0;
    assert(certs_view(certs@).subrange(0, 0) =~= Seq::<Seq<u8>>::empty());
    while i < certs.len()
        invariant
            i <= certs.len(),
            out@ == pem_bundle(certs_view(certs@).subrange(0, i as int)),
        decreases certs.len() - i,
    {
        let block = pem_certificate(certs[i].as_slice());
        out.append(block.as_str());
        proof {
            let upto = certs_view(certs@).subrange(0, i + 1);
            assert(upto.drop_last() =~= certs_view(certs@).subrange(0, i as int));
            assert(upto.last() == certs@[i as int]@);
        }
        i += 1;
    }
    assert(certs_view(certs@).subrange(0, certs@.len() as int) =~= certs_view(certs@));
    out
}

} // verus!
