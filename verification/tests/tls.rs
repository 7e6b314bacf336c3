use der::Decode;
use macrdp::tls::{
    accept_certificates, accept_key, check_key_mode, gather, generate_and_persist,
    load_pem_cert_and_key, make_tls_material, parse_certificates, parse_key, TlsError,
    KEY_FILE_MODE,
};
use x509_cert::ext::pkix::name::GeneralName;
use x509_cert::ext::pkix::SubjectAltName;
use x509_cert::Certificate;

const EMPTY_PEM: &[u8] = b"nothing here\n";

const BROKEN_PEM: &[u8] = b"-----BEGIN CERTIFICATE-----\n!!!\n-----END CERTIFICATE-----\n";

#[test]
fn what_is_generated_is_read_back() {
    let g = generate_and_persist().unwrap();
    let (certs, key) = load_pem_cert_and_key(&g.cert_pem, KEY_FILE_MODE, &g.key_pem).unwrap();
    assert_eq!(certs, vec![g.cert_der.clone()]);
    assert_eq!(key, g.key_der);
    assert_ne!(g.cert_pem, g.cert_der);
}

#[test]
fn the_certificate_is_for_the_local_host() {
    let g = generate_and_persist().unwrap();
    let cert = Certificate::from_der(&g.cert_der).unwrap();
    let (_, san) = cert.tbs_certificate.get::<SubjectAltName>().unwrap().unwrap();
    let names: Vec<String> = san
        .0
        .iter()
        .map(|n| match n {
            GeneralName::DnsName(name) => name.to_string(),
            other => panic!("expected a host name, got {other:?}"),
        })
        .collect();
    assert_eq!(names, vec!["localhost".to_string()]);
}

#[test]
fn the_public_key_is_taken_from_the_certificate() {
    let g = generate_and_persist().unwrap();
    let m = make_tls_material(&vec![g.cert_der.clone()], &g.key_der).unwrap();
    assert_eq!(m.cert_der, g.cert_der);
    assert_eq!(m.key_der, g.key_der);
    // A point on P-256, not compressed.
    assert_eq!(m.spki_der.len(), 65);
    assert_eq!(m.spki_der[0], 4);
    // The certificate holds it.
    assert!(g.cert_der.windows(65).any(|w| w == m.spki_der.as_slice()));
}

#[test]
fn keys_open_to_others_are_refused() {
    let g = generate_and_persist().unwrap();
    assert_eq!(
        load_pem_cert_and_key(&g.cert_pem, 0o100644, &g.key_pem),
        Err(TlsError::KeyExposed { mode: 0o644 })
    );
    assert_eq!(check_key_mode(0o100600), Ok(()));
    assert_eq!(check_key_mode(0o700), Ok(()));
    assert_eq!(check_key_mode(0o601), Err(TlsError::KeyExposed { mode: 0o601 }));
}

#[test]
fn files_without_the_right_sections_are_refused() {
    let g = generate_and_persist().unwrap();
    assert_eq!(parse_certificates(EMPTY_PEM), Err(TlsError::NoCertificates));
    assert_eq!(parse_certificates(BROKEN_PEM), Err(TlsError::BadCertificatePem));
    assert_eq!(parse_certificates(&g.key_pem), Err(TlsError::NoCertificates));
    assert_eq!(parse_key(EMPTY_PEM), Err(TlsError::NoPrivateKey));
    assert_eq!(parse_key(BROKEN_PEM), Err(TlsError::BadKeyPem));
    assert_eq!(parse_key(&g.cert_pem), Err(TlsError::NoPrivateKey));
}

#[test]
fn chains_are_read_in_order() {
    let a = generate_and_persist().unwrap();
    let b = generate_and_persist().unwrap();
    let mut pem = a.cert_pem.clone();
    pem.extend_from_slice(&a.key_pem);
    pem.extend_from_slice(&b.cert_pem);
    assert_eq!(parse_certificates(&pem), Ok(vec![a.cert_der, b.cert_der]));
    assert_eq!(parse_key(&pem), Ok(a.key_der));
}

#[test]
fn what_is_no_certificate_is_refused() {
    assert!(matches!(
        make_tls_material(&vec![vec![1, 2, 3]], &vec![]),
        Err(TlsError::BadCertificate)
    ));
    assert!(matches!(
        make_tls_material(&Vec::new(), &vec![]),
        Err(TlsError::EmptyChain)
    ));
}

#[test]
fn what_was_found_is_taken_over() {
    assert_eq!(accept_certificates(Vec::new()), Err(TlsError::NoCertificates));
    assert_eq!(accept_certificates(vec![vec![1]]), Ok(vec![vec![1]]));
    assert_eq!(accept_key(None), Err(TlsError::NoPrivateKey));
    assert_eq!(accept_key(Some(vec![2])), Ok(vec![2]));
    assert!(matches!(gather(&vec![vec![1]], &vec![2], None), Err(TlsError::BadCertificate)));
    let m = gather(&vec![vec![1], vec![9]], &vec![2], Some(vec![3])).unwrap();
    assert_eq!((m.cert_der, m.key_der, m.spki_der), (vec![1], vec![2], vec![3]));
}
