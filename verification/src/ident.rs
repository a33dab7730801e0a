//! Peer identity.
//!
//! A peer is identified by the raw SubjectPublicKeyInfo bytes of the leaf
//! certificate it presented; the certificate is otherwise unverified.  The
//! control plane shows a short hex identifier derived from those bytes.

use vstd::prelude::*;
use x509_parser::prelude::FromDer;

verus! {

/// What parsing a DER certificate yields: the SubjectPublicKeyInfo bit
/// string, and the first CommonName when one is present and readable.
/// Parsing depends on the certificate bytes alone.
pub uninterp spec fn parsed_cert(der: Seq<u8>) -> Option<(Seq<u8>, Option<Seq<char>>)>;

/// Relies on x509_parser's `X509Certificate::from_der`, together with
/// `TbsCertificate::public_key` and `X509Name::iter_common_name`: parsing
/// is a function of the DER bytes alone; on success it yields the
/// SubjectPublicKeyInfo bit string and, when one is present and readable,
/// the first CommonName.
#[verifier::external_body]
fn parse_cert(der: &[u8]) -> (r: Option<(Vec<u8>, Option<String>)>)
    ensures
        r is Some <==> parsed_cert(der@) is Some,
        r is Some ==> r.unwrap().0@ == parsed_cert(der@).unwrap().0,
        r is Some ==> match r.unwrap().1 {
            Some(s) => parsed_cert(der@).unwrap().1 == Some(s@),
            None => parsed_cert(der@).unwrap().1 is None,
        },
{
    match x509_parser::certificate::X509Certificate::from_der(der) {
        Ok((_, cert)) => {
            let spki = cert.public_key().subject_public_key.data.to_vec();
            let name = cert
                .subject()
                .iter_common_name()
                .next()
                .and_then(|cn| cn.as_str().ok())
                .map(|s| s.to_string());
            Some((spki, name))
        },
        Err(_) => None,
    }
}

/// The pool key for a peer: the SubjectPublicKeyInfo bytes of its DER
/// certificate, or `None` when the bytes do not parse as a certificate.
pub fn x509pubkey(cert: &[u8]) -> (r: Option<Vec<u8>>)
    ensures
        r is Some <==> parsed_cert(cert@) is Some,
        r is Some ==> r.unwrap()@ == parsed_cert(cert@).unwrap().0,
{
    match parse_cert(cert) {
        Some((key, _)) => Some(key),
        None => None,
    }
}

/// The display name for a peer: the first CommonName of its DER
/// certificate, or `None` when the certificate has no readable one (or the
/// bytes are no certificate at all).
pub fn x509_display_name(cert: &[u8]) -> (r: Option<String>)
    ensures
        match r {
            Some(s) => parsed_cert(cert@) is Some && parsed_cert(cert@).unwrap().1 == Some(s@),
            None => parsed_cert(cert@) is None || parsed_cert(cert@).unwrap().1 is None,
        },
{
    match parse_cert(cert) {
        Some((_, name)) => name,
        None => None,
    }
}

/// The lower-case hex digit for a value below 16.
pub open spec fn hex_digit(n: int) -> u8
    recommends
        0 <= n < 16,
{
    if n < 10 {
        (0x30 + n) as u8
    } else {
        (0x57 + n) as u8
    }
}

/// The lower-case hex encoding of a byte string, two digits per byte.
pub open spec fn hex_of(b: Seq<u8>) -> Seq<u8> {
    Seq::new(
        2 * b.len(),
        |i: int|
            if i % 2 == 0 {
                hex_digit((b[i / 2] / 16) as int)
            } else {
                hex_digit((b[i / 2] % 16) as int)
            },
    )
}

/// How many leading key bytes the short identifier encodes.
pub open spec fn id_prefix_len(key: Seq<u8>) -> int {
    if key.len() < 8 {
        key.len() as int
    } else {
        8
    }
}

fn hex_digit_ex(n: u8) -> (r: u8)
    requires
        n < 16,
    ensures
        r == hex_digit(n as int),
{
    if n < 10 {
        0x30 + n
    } else {
        0x57 + n
    }
}

/// The short identifier the control plane shows for a pool key: the
/// lower-case hex encoding of the key's first eight bytes (of the whole
/// key when it is shorter), a deterministic function of the key.
pub fn pubkey_to_id(key: &[u8]) -> (r: Vec<u8>)
    ensures
        r@ == hex_of(key@.take(id_prefix_len(key@))),
{
    let n: usize = if key.len() < 8 {
        key.len()
    } else {
        8
    };
    let ghost prefix = key@.take(n as int);
    let mut out: Vec<u8> = Vec::new();
    let mut i: usize = 0;
    while i < n
        invariant
            n as int == id_prefix_len(key@),
            prefix == key@.take(n as int),
            n <= key@.len(),
            i <= n,
            out@.len() == 2 * i,
            out@ =~= hex_of(prefix).take(2 * i as int),
        decreases n - i,
    {
        let b = key[i];
        out.push(hex_digit_ex(b / 16));
        out.push(hex_digit_ex(b % 16));
        proof {
            assert(prefix[i as int] == key@[i as int]);
            assert(out@ =~= hex_of(prefix).take(2 * (i + 1) as int));
        }
        i = i + 1;
    }
    proof {
        assert(out@ =~= hex_of(prefix));
    }
    out
}

} // verus!
