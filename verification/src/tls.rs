//! The server's certificate and key: reading them back, making them anew, and what the
//! connection needs of them.
use crate::wire::copy_bytes;
use vstd::prelude::*;

verus! {

/// The permissions that a new key file gets.
pub const KEY_FILE_MODE: u32 = 0o600;

/// The host that a new certificate is made for.
pub const CERTIFICATE_HOST: &'static str = "localhost";

#[derive(Debug, Clone, Copy, PartialEq, Eq, Structural)]
pub enum TlsError {
    /// The certificate file cannot be read as PEM.
    BadCertificatePem,
    NoCertificates,
    /// The key file can be read by others than its owner.
    KeyExposed { mode: u32 },
    /// The key file cannot be read as PEM.
    BadKeyPem,
    NoPrivateKey,
    /// There is no certificate to present.
    EmptyChain,
    /// The certificate is no X.509 certificate.
    BadCertificate,
    /// No certificate could be made.
    NotGenerated,
}

/// Several rows of bytes.
pub open spec fn rows(v: Seq<Vec<u8>>) -> Seq<Seq<u8>> {
    v.map_values(|r: Vec<u8>| r@)
}

/// The certificates that `rustls_pemfile::certs` finds in a PEM text, or none where it
/// meets an error.
pub uninterp spec fn certificates_in(pem: Seq<u8>) -> Option<Seq<Seq<u8>>>;

/// The key that `rustls_pemfile::private_key` finds in a PEM text, if there is one, or
/// none where it meets an error.
pub uninterp spec fn private_key_in(pem: Seq<u8>) -> Option<Option<Seq<u8>>>;

/// The public key that `x509_cert::Certificate::from_der` finds in a certificate, or
/// none where it refuses the certificate.
pub uninterp spec fn public_key_in(certificate: Seq<u8>) -> Option<Seq<u8>>;

/// The host names among a certificate's subject alternative names, in order, as the
/// `SubjectAltName` extension that `x509_cert::TbsCertificate::get` finds in it holds
/// them, or none where it finds no such extension.
pub uninterp spec fn hosts_in(certificate: Seq<u8>) -> Option<Seq<Seq<char>>>;

/// A character that stands in no internet address.
pub open spec fn outside_addresses(c: char) -> bool {
    !('0' <= c <= '9' || 'a' <= c <= 'f' || 'A' <= c <= 'F' || c == '.' || c == ':')
}

/// Calls `rustls_pemfile::certs`, which yields the certificates among the sections of a
/// PEM text, and collects them up to the first error. Which bytes they are is only
/// named: it is a function of the text.
#[verifier::external_body]
fn pem_certificates(pem: &[u8]) -> (r: Option<Vec<Vec<u8>>>)
    ensures
        certificates_in(pem@) == (match r {
            Some(v) => Some(rows(v@)),
            None => None,
        }),
{
    let mut reader: &[u8] = pem;
    let found: std::io::Result<Vec<Vec<u8>>> = rustls_pemfile::certs(&mut reader)
        .map(|c| c.map(|der| der.as_ref().to_vec()))
        .collect();
    found.ok()
}

/// Calls `rustls_pemfile::private_key`, which yields the first private key among the
/// sections of a PEM text, whatever its kind. Which bytes it is is only named: it is a
/// function of the text.
#[verifier::external_body]
fn pem_private_key(pem: &[u8]) -> (r: Option<Option<Vec<u8>>>)
    ensures
        private_key_in(pem@) == (match r {
            Some(Some(v)) => Some(Some(v@)),
            Some(None) => Some(None),
            None => None,
        }),
{
    let mut reader: &[u8] = pem;
    let found = rustls_pemfile::private_key(&mut reader);
    found.ok().map(|key| key.map(|k| k.secret_der().to_vec()))
}

/// Calls `x509_cert::Certificate::from_der` and takes the bits of the subject's public
/// key out of the certificate. Which bytes they are is only named: it is a function of
/// the certificate.
#[verifier::external_body]
fn certificate_public_key(certificate: &[u8]) -> (r: Option<Vec<u8>>)
    ensures
        public_key_in(certificate@) == (match r {
            Some(v) => Some(v@),
            None => None,
        }),
{
    let parsed: der::Result<x509_cert::Certificate> = der::Decode::from_der(certificate);
    parsed.ok().map(
        |c|
            c.tbs_certificate.subject_public_key_info.subject_public_key.raw_bytes().to_vec(),
    )
}

/// A certificate and its key, each in PEM and in DER.
#[derive(Debug)]
pub struct Generated {
    pub cert_pem: Vec<u8>,
    pub key_pem: Vec<u8>,
    pub cert_der: Vec<u8>,
    pub key_der: Vec<u8>,
}

/// Calls `rcgen::generate_simple_self_signed`, which makes a key at random and a
/// certificate for it. A host outside ASCII is refused. The PEM texts of the two are the
/// encodings of their DER forms, which reading them back undoes: a certificate section
/// holds the certificate, a key section the key. A host that is no internet address is
/// the one host name that the certificate is made for. What a host that is one becomes is
/// left unsaid.
#[verifier::external_body]
fn self_signed(host: &str) -> (r: Option<Generated>)
    ensures
        (exists|i: int| 0 <= i < host@.len() && #[trigger] host@[i] as u32 > 127) ==> r is None,
        host@.len() <= 255 ==> (r matches Some(g) ==> certificates_in(g.cert_pem@) == Some(
            seq![g.cert_der@],
        ) && private_key_in(g.key_pem@) == Some(Some(g.key_der@))),
        host@.len() <= 255 && (exists|i: int|
            0 <= i < host@.len() && outside_addresses(#[trigger] host@[i])) ==> (
        r matches Some(g) ==> hosts_in(g.cert_der@) == Some(seq![host@])),
{
    let made = rcgen::generate_simple_self_signed(vec![host.to_string()]).ok();
    made.map(
        |m|
            Generated {
                cert_pem: m.cert.pem().into_bytes(),
                key_pem: m.key_pair.serialize_pem().into_bytes(),
                cert_der: m.cert.der().to_vec(),
                key_der: m.key_pair.serialize_der(),
            },
    )
}

/// The certificates of a file; there must be one.
pub open spec fn read_certificates(pem: Seq<u8>) -> Result<Seq<Seq<u8>>, TlsError> {
    match certificates_in(pem) {
        None => Err(TlsError::BadCertificatePem),
        Some(certs) => if certs.len() == 0 {
            Err(TlsError::NoCertificates)
        } else {
            Ok(certs)
        },
    }
}

pub fn parse_certificates(pem: &[u8]) -> (r: Result<Vec<Vec<u8>>, TlsError>)
    ensures
        read_certificates(pem@) == (match r {
            Ok(v) => Ok(rows(v@)),
            Err(e) => Err(e),
        }),
{
    match pem_certificates(pem) {
        None => Err(TlsError::BadCertificatePem),
        Some(certs) => accept_certificates(certs),
    }
}

/// Takes the certificates that were found in a file.
pub fn accept_certificates(certs: Vec<Vec<u8>>) -> (r: Result<Vec<Vec<u8>>, TlsError>)
    ensures
        r == (if certs@.len() == 0 {
            Err(TlsError::NoCertificates)
        } else {
            Ok(certs)
        }),
{
    if certs.len() == 0 {
        return Err(TlsError::NoCertificates);
    }
    Ok(certs)
}

/// A key file is private where neither group nor others may do anything with it: the
/// last six permission bits are clear.
pub open spec fn key_mode_ok(mode: u32) -> bool {
    mode % 64 == 0
}

/// Refuses a key file that is open to others, and reports its permissions.
pub fn check_key_mode(mode: u32) -> (r: Result<(), TlsError>)
    ensures
        r == (if key_mode_ok(mode) {
            Ok::<(), TlsError>(())
        } else {
            Err(TlsError::KeyExposed { mode: mode % 512 })
        }),
{
    let bits: u32 = mode & 0o777;
    assert(bits == mode % 512 && (bits & 0o077 == 0 <==> mode % 64 == 0)) by (bit_vector)
        requires
            bits == mode & 0o777,
    ;
    if bits & 0o077 != 0 {
        return Err(TlsError::KeyExposed { mode: bits });
    }
    Ok(())
}

/// The key of a file.
pub open spec fn read_key(pem: Seq<u8>) -> Result<Seq<u8>, TlsError> {
    match private_key_in(pem) {
        None => Err(TlsError::BadKeyPem),
        Some(None) => Err(TlsError::NoPrivateKey),
        Some(Some(key)) => Ok(key),
    }
}

pub fn parse_key(pem: &[u8]) -> (r: Result<Vec<u8>, TlsError>)
    ensures
        read_key(pem@) == (match r {
            Ok(v) => Ok(v@),
            Err(e) => Err(e),
        }),
{
    match pem_private_key(pem) {
        None => Err(TlsError::BadKeyPem),
        Some(found) => accept_key(found),
    }
}

/// Takes the key that was found in a file.
pub fn accept_key(found: Option<Vec<u8>>) -> (r: Result<Vec<u8>, TlsError>)
    ensures
        r == (match found {
            Some(key) => Ok(key),
            None => Err(TlsError::NoPrivateKey),
        }),
{
    match found {
        Some(key) => Ok(key),
        None => Err(TlsError::NoPrivateKey),
    }
}

/// What a certificate file and a key file hold. The certificates come first, the key's
/// permissions second, the key last.
pub open spec fn loaded(cert_pem: Seq<u8>, key_mode: u32, key_pem: Seq<u8>) -> Result<
    (Seq<Seq<u8>>, Seq<u8>),
    TlsError,
> {
    match read_certificates(cert_pem) {
        Err(e) => Err(e),
        Ok(certs) => if !key_mode_ok(key_mode) {
            Err(TlsError::KeyExposed { mode: key_mode % 512 })
        } else {
            match read_key(key_pem) {
                Err(e) => Err(e),
                Ok(key) => Ok((certs, key)),
            }
        },
    }
}

/// Reads a certificate file and a key file.
pub fn load_pem_cert_and_key(cert_pem: &[u8], key_mode: u32, key_pem: &[u8]) -> (r: Result<
    (Vec<Vec<u8>>, Vec<u8>),
    TlsError,
>)
    ensures
        loaded(cert_pem@, key_mode, key_pem@) == (match r {
            Ok((certs, key)) => Ok((rows(certs@), key@)),
            Err(e) => Err(e),
        }),
{
    match parse_certificates(cert_pem) {
        Err(e) => Err(e),
        Ok(certs) => match check_key_mode(key_mode) {
            Err(e) => Err(e),
            Ok(_) => match parse_key(key_pem) {
                Err(e) => Err(e),
                Ok(key) => Ok((certs, key)),
            },
        },
    }
}

/// Makes a certificate for the local host, and its key. Written to files, the key with its
/// owner's permissions alone, they are read back as they were made.
pub fn generate_and_persist() -> (r: Result<Generated, TlsError>)
    ensures
        r matches Ok(g) ==> loaded(g.cert_pem@, KEY_FILE_MODE, g.key_pem@) == Ok::<
            (Seq<Seq<u8>>, Seq<u8>),
            TlsError,
        >((seq![g.cert_der@], g.key_der@)),
        r matches Ok(g) ==> hosts_in(g.cert_der@) == Some(seq!["localhost"@]),
        r matches Err(e) ==> e == TlsError::NotGenerated,
{
    proof {
        reveal_strlit("localhost");
        assert(outside_addresses(CERTIFICATE_HOST@[0]));
    }
    match self_signed(CERTIFICATE_HOST) {
        Some(g) => Ok(g),
        None => Err(TlsError::NotGenerated),
    }
}

/// What the connection needs besides the certificate chain itself.
#[derive(Debug)]
pub struct TlsMaterial {
    pub cert_der: Vec<u8>,
    pub key_der: Vec<u8>,
    /// The public key of the certificate.
    pub spki_der: Vec<u8>,
}

/// Gathers what the connection needs from a chain, whose first certificate counts, and
/// its key.
pub fn make_tls_material(certs: &Vec<Vec<u8>>, key: &Vec<u8>) -> (r: Result<TlsMaterial, TlsError>)
    ensures
        certs@.len() == 0 ==> r == Err::<TlsMaterial, TlsError>(TlsError::EmptyChain),
        certs@.len() > 0 && public_key_in(certs@[0]@) is None ==> r == Err::<TlsMaterial, TlsError>(
            TlsError::BadCertificate,
        ),
        certs@.len() > 0 && public_key_in(certs@[0]@) is Some ==> (r matches Ok(m) && m.cert_der@
            == certs@[0]@ && m.key_der@ == key@ && Some(m.spki_der@) == public_key_in(
            certs@[0]@,
        )),
{
    if certs.len() == 0 {
        return Err(TlsError::EmptyChain);
    }
    gather(certs, key, certificate_public_key(certs[0].as_slice()))
}

/// As [`make_tls_material`], told the public key that was found in the first
/// certificate.
pub fn gather(certs: &Vec<Vec<u8>>, key: &Vec<u8>, public_key: Option<Vec<u8>>) -> (r: Result<
    TlsMaterial,
    TlsError,
>)
    requires
        certs@.len() > 0,
    ensures
        public_key is None ==> r == Err::<TlsMaterial, TlsError>(TlsError::BadCertificate),
        public_key matches Some(k) ==> (r matches Ok(m) && m.cert_der@ == certs@[0]@ && m.key_der@
            == key@ && m.spki_der == k),
{
    match public_key {
        None => Err(TlsError::BadCertificate),
        Some(spki_der) => {
            let cert_der: Vec<u8> = copy_bytes(certs[0].as_slice(), 0, certs[0].len());
            let key_der: Vec<u8> = copy_bytes(key.as_slice(), 0, key.len());
            assert(cert_der@ =~= certs@[0]@);
            assert(key_der@ =~= key@);
            Ok(TlsMaterial { cert_der, key_der, spki_der })
        },
    }
}

/// A key file is taken where no bit for the group or for others is set, and a new one has
/// none.
pub proof fn keys_are_for_their_owner(mode: u32)
    ensures
        key_mode_ok(mode) <==> mode & 0o077 == 0,
        mode % 512 == mode & 0o777,
        KEY_FILE_MODE & 0o077 == 0,
        KEY_FILE_MODE & 0o700 == 0o600,
{
    assert((mode % 64 == 0 <==> mode & 0o077 == 0) && mode % 512 == mode & 0o777) by (bit_vector);
    assert(0o600u32 & 0o077 == 0 && 0o600u32 & 0o700 == 0o600) by (bit_vector);
}

/// Of two files with several faults the certificates' is reported first, then that the key
/// can be read by others.
pub proof fn faults_are_reported_in_order(cert_pem: Seq<u8>, mode: u32, key_pem: Seq<u8>)
    ensures
        certificates_in(cert_pem) is None ==> loaded(cert_pem, mode, key_pem) == Err::<
            (Seq<Seq<u8>>, Seq<u8>),
            TlsError,
        >(TlsError::BadCertificatePem),
        certificates_in(cert_pem) matches Some(c) ==> c.len() == 0 ==> loaded(cert_pem, mode, key_pem)
            == Err::<(Seq<Seq<u8>>, Seq<u8>), TlsError>(TlsError::NoCertificates),
        certificates_in(cert_pem) matches Some(c) ==> c.len() > 0 && mode & 0o077 != 0 ==> loaded(
            cert_pem,
            mode,
            key_pem,
        ) == Err::<(Seq<Seq<u8>>, Seq<u8>), TlsError>(TlsError::KeyExposed { mode: mode & 0o777 }),
        certificates_in(cert_pem) matches Some(c) ==> c.len() > 0 && mode & 0o077 == 0 ==> (
        private_key_in(key_pem) matches Some(Some(k)) ==> loaded(cert_pem, mode, key_pem) == Ok::<
            (Seq<Seq<u8>>, Seq<u8>),
            TlsError,
        >((c, k))),
        certificates_in(cert_pem) matches Some(c) ==> c.len() > 0 && mode & 0o077 == 0 ==> (
        private_key_in(key_pem) == Some(None::<Seq<u8>>) ==> loaded(cert_pem, mode, key_pem) == Err::<
            (Seq<Seq<u8>>, Seq<u8>),
            TlsError,
        >(TlsError::NoPrivateKey)),
{
    keys_are_for_their_owner(mode);
}

} // verus!
