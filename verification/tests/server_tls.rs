use pgsteward::tls::{passes, ClientTls, ServerTls, SslMode, TlsError, TlsPlan};
use tokio_rustls::rustls::client::danger::ServerCertVerifier;
use tokio_rustls::rustls::pki_types::{ServerName, UnixTime};

#[test]
fn a_verifying_mode_needs_a_root_certificate() {
    for mode in [SslMode::VerifyCa, SslMode::VerifyFull] {
        let error = ServerTls::new(mode, None)
            .expect_err("a mode that verifies cannot work without a root certificate");
        assert!(
            matches!(error, TlsError::NoRootCertificate),
            "expected {mode:?} to ask for a root certificate, got {error:?}"
        );
    }
}

#[test]
fn a_root_certificate_that_is_not_a_certificate_is_refused() {
    let error = ServerTls::new(SslMode::VerifyFull, Some(b"not a certificate"))
        .expect_err("the root certificate is read at startup");

    assert!(
        matches!(error, TlsError::RootCertificate(_)),
        "expected the root certificate to be reported, got {error:?}"
    );
}

#[test]
fn the_mode_a_connection_runs_under_is_the_one_it_was_built_with() {
    assert_eq!(ServerTls::disabled().mode(), SslMode::Disable);
    assert_eq!(
        ServerTls::new(SslMode::Require, None).unwrap().mode(),
        SslMode::Require
    );
    assert_eq!(SslMode::default(), SslMode::Prefer);
}

#[test]
fn a_certificate_and_its_key_make_a_configuration() {
    let certified = rcgen::generate_simple_self_signed(vec!["pgsteward.test".to_owned()]).unwrap();
    let other = rcgen::generate_simple_self_signed(vec!["pgsteward.test".to_owned()]).unwrap();
    let (chain, key) = (certified.cert.pem(), certified.signing_key.serialize_pem());

    assert!(ClientTls::from_pem(chain.as_bytes(), key.as_bytes()).is_ok());

    assert!(matches!(
        ClientTls::from_pem(other.cert.pem().as_bytes(), key.as_bytes()),
        Err(TlsError::Unusable(_))
    ));
    assert!(matches!(
        ClientTls::from_pem(b"", key.as_bytes()),
        Err(TlsError::NoCertificate)
    ));
    assert!(matches!(
        ClientTls::from_pem(chain.as_bytes(), chain.as_bytes()),
        Err(TlsError::PrivateKey(_))
    ));
    assert!(matches!(
        ClientTls::from_pem(
            b"-----BEGIN CERTIFICATE-----\n!!!!\n-----END CERTIFICATE-----\n",
            key.as_bytes()
        ),
        Err(TlsError::Certificate(_))
    ));
}

#[test]
fn a_root_certificate_is_read_as_its_bytes() {
    let certified = rcgen::generate_simple_self_signed(vec!["root.test".to_owned()]).unwrap();
    let tls =
        ServerTls::new(SslMode::VerifyCa, Some(certified.cert.pem().as_bytes())).unwrap();

    assert_eq!(tls.roots(), &vec![certified.cert.der().to_vec()]);
    assert_eq!(tls.plan(), TlsPlan::Checked { name: false });
    assert!(tls.certificate_check().is_some());
    assert!(ServerTls::new(SslMode::Require, None)
        .unwrap()
        .certificate_check()
        .is_none());
}

#[test]
fn a_root_certificate_that_nothing_can_be_checked_against_is_refused() {
    let certified = rcgen::generate_simple_self_signed(vec!["root.test".to_owned()]).unwrap();
    let unusable = "-----BEGIN CERTIFICATE-----\nAAAA\n-----END CERTIFICATE-----\n";
    for pem in [unusable.to_owned(), certified.cert.pem() + unusable] {
        let error = ServerTls::new(SslMode::VerifyFull, Some(pem.as_bytes()))
            .expect_err("the root certificate is read at startup");
        assert!(matches!(error, TlsError::Verifier(_)), "{error:?}");
    }
    assert!(ServerTls::new(SslMode::Prefer, Some(unusable.as_bytes())).is_ok());
}

#[test]
fn a_server_certificate_is_checked_against_the_root_certificate() {
    let known = rcgen::generate_simple_self_signed(vec!["db.test".to_owned()]).unwrap();
    let other = rcgen::generate_simple_self_signed(vec!["db.test".to_owned()]).unwrap();
    let tls = ServerTls::new(SslMode::VerifyFull, Some(known.cert.pem().as_bytes())).unwrap();
    let check = tls.certificate_check().unwrap();
    let shown = |certified: &rcgen::CertifiedKey<rcgen::KeyPair>| {
        check.verify_server_cert(
            certified.cert.der(),
            &[],
            &ServerName::try_from("db.test").unwrap(),
            &[],
            UnixTime::now(),
        )
    };

    assert!(shown(&known).is_ok(), "{:?}", shown(&known));
    assert!(shown(&other).is_err());
}

#[test]
fn only_a_name_that_is_not_checked_is_passed_over() {
    let any = [None, Some(true), Some(false)];
    for plan in [TlsPlan::Off, TlsPlan::AnyCertificate] {
        assert_eq!(any.map(|failure| passes(plan, failure)), [true; 3]);
    }
    assert_eq!(
        any.map(|failure| passes(TlsPlan::Checked { name: false }, failure)),
        [true, true, false]
    );
    assert_eq!(
        any.map(|failure| passes(TlsPlan::Checked { name: true }, failure)),
        [true, false, false]
    );
}
