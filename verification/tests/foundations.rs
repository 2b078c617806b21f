use pgsteward::order::{compare_text, same_text, Order};
use pgsteward::ordmap::OrdMap;
use pgsteward::scram::{nonce, ScramError, ScramExchange, ScramVerifier, VerifierError};
use pgsteward::sorting::sort;
use pgsteward::spread::spread;
use pgsteward::text::{decimal_text, is_blank};
use pgsteward::time::{Duration, Instant};
use pgsteward::tls::{ServerTls, SslMode, TlsError, TlsPlan};

#[test]
fn texts_are_ordered_by_their_bytes() {
    assert_eq!(compare_text("a", "b"), Order::Before);
    assert_eq!(compare_text("ab", "a"), Order::After);
    assert_eq!(compare_text("é", "z"), Order::After);
    assert_eq!(compare_text("é", "é"), Order::Same);
    assert!(same_text("", ""));
    assert!(!same_text("", "x"));
}

#[test]
fn a_map_keeps_its_keys_in_order() {
    let mut map: OrdMap<String, u32> = OrdMap::new();
    for (key, value) in [("b", 2), ("a", 1), ("c", 3), ("b", 4)] {
        map.insert(key.to_owned(), value);
    }
    assert_eq!(map.len(), 3);
    assert_eq!(map.key_at(1), "b");
    assert_eq!(map.get(&"b".to_owned()), Some(&4));
    assert_eq!(map.remove(&"a".to_owned()), Some(1));
    assert_eq!(map.remove(&"a".to_owned()), None);
    assert!(!map.contains(&"a".to_owned()));
}

#[test]
fn sorting_keeps_the_order_of_equal_keys() {
    let keys = vec!["b".to_owned(), "a".to_owned(), "b".to_owned(), "a".to_owned()];
    assert_eq!(sort(&keys), vec![1, 3, 0, 2]);
}

#[test]
fn a_target_is_spread_by_what_is_asked_for() {
    assert_eq!(spread(7, &vec![3, 4], &vec![0, 0]), vec![3, 4]);
    assert_eq!(spread(5, &vec![4, 4], &vec![0, 0]).iter().sum::<u32>(), 5);
    assert_eq!(spread(5, &vec![5, 0], &vec![5, 3]), vec![5, 0]);
    assert_eq!(spread(8, &vec![5, 0], &vec![5, 3]), vec![5, 3]);
}

#[test]
fn numbers_are_written_in_decimal() {
    assert_eq!(decimal_text(0), "0");
    assert_eq!(decimal_text(10), "10");
    assert_eq!(decimal_text(u64::MAX), "18446744073709551615");
}

#[test]
fn white_space_is_what_unicode_says_it_is() {
    for n in 0..=0x10_ffff {
        if let Some(c) = char::from_u32(n) {
            assert_eq!(is_blank(&c.to_string()), c.is_whitespace(), "{n:x}");
        }
    }
}

#[test]
fn a_span_is_shown_in_its_largest_unit() {
    assert_eq!(Duration::from_secs(10).shown(), "10s");
    assert_eq!(Duration::from_millis(10).shown(), "10ms");
    assert_eq!(Duration::from_micros(7).shown(), "7µs");
    assert_eq!(
        Duration::from_nanos(u128::MAX).shown(),
        "18446744073709551615.999999999s"
    );
}

#[test]
fn time_does_not_run_backwards() {
    let early = Instant::after_origin(Duration::from_secs(1));
    let late = early.plus(Duration::from_secs(2));
    assert_eq!(late.duration_since(early), Duration::from_secs(2));
    assert_eq!(early.duration_since(late), Duration::from_secs(0));
}

#[test]
fn a_mode_decides_what_a_connection_is_encrypted_with() {
    let plan = |mode| ServerTls::new(mode, None).unwrap().plan();
    assert_eq!(plan(SslMode::Disable), TlsPlan::Off);
    assert_eq!(plan(SslMode::Prefer), TlsPlan::AnyCertificate);
    assert_eq!(plan(SslMode::Require), TlsPlan::AnyCertificate);
    let root = rcgen::generate_simple_self_signed(vec!["root.test".to_owned()]).unwrap();
    let pem = root.cert.pem();
    let tls = ServerTls::new(SslMode::VerifyFull, Some(pem.as_bytes())).unwrap();
    assert_eq!(tls.plan(), TlsPlan::Checked { name: true });
    assert_eq!(tls.roots(), &vec![root.cert.der().to_vec()]);
    let tls = ServerTls::new(SslMode::VerifyCa, Some(pem.as_bytes())).unwrap();
    assert_eq!(tls.plan(), TlsPlan::Checked { name: false });
}

#[test]
fn a_reason_not_to_encrypt_is_told() {
    for (error, text) in [
        (
            TlsError::Certificate("x".to_owned()),
            "cannot read a PEM certificate chain: x",
        ),
        (TlsError::NoCertificate, "holds no certificate"),
        (
            TlsError::PrivateKey("x".to_owned()),
            "cannot read a PEM private key: x",
        ),
        (
            TlsError::Verifier("x".to_owned()),
            "cannot verify certificates with the root certificate: x",
        ),
        (
            TlsError::Unusable("x".to_owned()),
            "the certificate and the key do not make a TLS configuration: x",
        ),
        (
            TlsError::RootCertificate("x".to_owned()),
            "cannot read a PEM root certificate: x",
        ),
        (
            TlsError::NoRootCertificate,
            "a mode that verifies the certificate needs a root certificate",
        ),
    ] {
        assert_eq!(error.to_string(), text);
    }
}

#[test]
fn a_verifier_is_read_as_postgres_stores_it() {
    let text = "SCRAM-SHA-256$4096:W22ZaJ0SNY7soEsUEjb6gQ==$\
WG5d8oPm3OtcPnkdi4Uo7BkeZkBFzpcXkuLmtbsT4qY=:wfPLwcE6nTWhTAmQ7tl2KeoiWGPlZqQxSrmfPwDl2dU=";
    let salt = [
        0x5b, 0x6d, 0x99, 0x68, 0x9d, 0x12, 0x35, 0x8e, 0xec, 0xa0, 0x4b, 0x14, 0x12, 0x36, 0xfa,
        0x81,
    ];
    let verifier = ScramVerifier::from_password("pencil", &salt, 4096);
    assert!(ScramVerifier::from_str(text).ok().unwrap() == verifier);

    for (broken, error) in [
        ("md5abc", VerifierError::Mechanism),
        (&text.replace("4096", "0"), VerifierError::Iterations),
        (&text.replace("4096", "many"), VerifierError::Iterations),
    ] {
        assert_eq!(ScramVerifier::from_str(broken).err(), Some(error));
    }
    assert!(matches!(
        ScramVerifier::from_str(&text.replace("W22Z", "!!!!")).err(),
        Some(VerifierError::Malformed(_))
    ));
}

#[test]
fn a_nonce_is_base64_of_eighteen_bytes_and_never_the_same() {
    let (one, other) = (nonce(), nonce());
    assert_eq!(one.len(), 24);
    assert_ne!(one, other);
    assert!(!one.contains(','));
}

#[test]
fn a_message_that_is_no_text_is_malformed() {
    let mut exchange = ScramExchange::new(ScramVerifier::mock(), nonce());
    assert!(matches!(
        exchange.server_first(b"n,,n=,r=\xff"),
        Err(ScramError::Malformed(_))
    ));
    for (message, complaint) in [
        ("r=abc", "the client-first message has no GS2 header"),
        ("n,r=abc", "the GS2 header has no authzid field"),
        ("x,,r=abc", "the GS2 header has an unknown channel-binding flag"),
        ("n,,n=", "the client-first message has no nonce"),
    ] {
        assert_eq!(
            exchange.server_first(message.as_bytes()),
            Err(ScramError::Malformed(complaint))
        );
    }
}
