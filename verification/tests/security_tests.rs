use rkui::kafka::security::{
    bundle_parsed, choose_certs, detect_keystore_kind, jks_truststore_to_pem, minijks_can_read,
    needs_content, parse_jks_trusted_certs, parse_username_password_from_jaas, pem_certificate,
    pem_certificates,
    pem_ending, pkcs12_to_pem, JksError, KeyStoreKind,
};

fn pair(user: &str, pass: &str) -> Option<(String, String)> {
    Some((user.to_string(), pass.to_string()))
}

#[test]
fn jaas_values_in_double_quotes() {
    let s = "org.apache.kafka.common.security.scram.ScramLoginModule required username=\"alice\" password=\"s3cr3t;x\";";
    assert_eq!(parse_username_password_from_jaas(s), pair("alice", "s3cr3t;x"));
}

#[test]
fn jaas_values_in_single_quotes_and_blanks_around_equals() {
    assert_eq!(
        parse_username_password_from_jaas("username = 'bob'   PASSWORD\t=\t'p w'"),
        pair("bob", "p w")
    );
}

#[test]
fn jaas_values_without_quotes_end_at_blank_or_semicolon() {
    assert_eq!(parse_username_password_from_jaas("username=carol password=pw;"), pair("carol", "pw"));
    assert_eq!(parse_username_password_from_jaas("UserName=dave\npassword=x"), pair("dave", "x"));
}

#[test]
fn jaas_names_are_words_of_their_own() {
    assert_eq!(
        parse_username_password_from_jaas("myusername=no username=yes xpassword=no password=ok"),
        pair("yes", "ok")
    );
    assert_eq!(
        parse_username_password_from_jaas("username required username=eve password=pw"),
        pair("eve", "pw")
    );
}

#[test]
fn jaas_unclosed_quote_takes_the_rest() {
    assert_eq!(
        parse_username_password_from_jaas("password=\"open username='u'"),
        pair("u", "open username='u'")
    );
    assert_eq!(
        parse_username_password_from_jaas("username='u' password=\"open end"),
        pair("u", "open end")
    );
    assert_eq!(parse_username_password_from_jaas("username=\"\" password=''"), pair("", ""));
}

#[test]
fn jaas_without_both_values_gives_nothing() {
    assert_eq!(parse_username_password_from_jaas(""), None);
    assert_eq!(parse_username_password_from_jaas("username=alice"), None);
    assert_eq!(parse_username_password_from_jaas("password=pw"), None);
    assert_eq!(
        parse_username_password_from_jaas("username= password=pw"),
        pair("password=pw", "pw")
    );
    assert_eq!(parse_username_password_from_jaas("username=a password="), None);
    assert_eq!(parse_username_password_from_jaas("username=a password=;"), None);
    assert_eq!(parse_username_password_from_jaas("username alice password pw"), None);
}

#[test]
fn jaas_values_keep_their_case_and_other_scripts() {
    assert_eq!(
        parse_username_password_from_jaas("USERNAME=\"J\u{fc}rgen\" Password='\u{5bc6}\u{7801}'"),
        pair("J\u{fc}rgen", "\u{5bc6}\u{7801}")
    );
}

fn utf(text: &str) -> Vec<u8> {
    let mut out = (text.len() as u16).to_be_bytes().to_vec();
    out.extend_from_slice(text.as_bytes());
    out
}

fn block(bytes: &[u8]) -> Vec<u8> {
    let mut out = (bytes.len() as u32).to_be_bytes().to_vec();
    out.extend_from_slice(bytes);
    out
}

fn trusted_entry(alias: &str, der: &[u8], attributes: &[(&str, &str)], version: u32) -> Vec<u8> {
    let mut out = 1u32.to_be_bytes().to_vec();
    out.extend(utf(alias));
    out.extend(7u64.to_be_bytes());
    out.extend(utf("X.509"));
    out.extend(block(der));
    if version >= 2 {
        out.extend((attributes.len() as u32).to_be_bytes());
        for (k, v) in attributes {
            out.extend(utf(k));
            out.extend(utf(v));
        }
    }
    out
}

fn key_entry(alias: &str, key: &[u8], chain: &[&[u8]], version: u32) -> Vec<u8> {
    let mut out = 2u32.to_be_bytes().to_vec();
    out.extend(utf(alias));
    out.extend(9u64.to_be_bytes());
    out.extend(block(key));
    out.extend((chain.len() as u32).to_be_bytes());
    for der in chain {
        out.extend(utf("X.509"));
        out.extend(block(der));
    }
    if version >= 2 {
        out.extend(0u32.to_be_bytes());
    }
    out
}

fn store(version: u32, entries: &[Vec<u8>]) -> Vec<u8> {
    let mut out = 0xFEED_FEEDu32.to_be_bytes().to_vec();
    out.extend(version.to_be_bytes());
    out.extend((entries.len() as u32).to_be_bytes());
    for e in entries {
        out.extend_from_slice(e);
    }
    out.extend([0u8; 20]);
    out
}

#[test]
fn key_store_gives_its_trusted_certificates_in_order() {
    let data = store(
        2,
        &[
            trusted_entry("root", &[1, 2, 3], &[("k", "v"), ("x", "")], 2),
            key_entry("me", &[9, 9], &[&[7], &[8, 8]], 2),
            trusted_entry("sub", &[], &[], 2),
            trusted_entry("leaf", &[4, 5], &[], 2),
        ],
    );
    assert_eq!(parse_jks_trusted_certs(&data).ok(), Some(vec![vec![1, 2, 3], vec![], vec![4, 5]]));
    let old = store(1, &[trusted_entry("root", &[6], &[], 1), key_entry("me", &[], &[], 1)]);
    assert_eq!(parse_jks_trusted_certs(&old).ok(), Some(vec![vec![6]]));
    assert_eq!(parse_jks_trusted_certs(&store(2, &[])).ok(), Some(vec![]));
}

#[test]
fn key_store_errors_say_what_is_wrong() {
    let text = |data: &[u8]| parse_jks_trusted_certs(data).err().map(|e| e.message());
    assert_eq!(text(&[]), Some("failed to fill whole buffer".to_string()));
    assert_eq!(text(&[0xFE, 0xED, 0xFE]), Some("failed to fill whole buffer".to_string()));
    assert_eq!(text(&[0, 0, 0, 0, 0, 0, 0, 2]), Some("Not a JKS file (bad magic)".to_string()));
    assert_eq!(
        text(&[0xFE, 0xED, 0xFE, 0xED, 0, 0, 0, 2]),
        Some("failed to fill whole buffer".to_string())
    );
    let mut unknown = 0xFEED_FEEDu32.to_be_bytes().to_vec();
    unknown.extend(2u32.to_be_bytes());
    unknown.extend(1u32.to_be_bytes());
    unknown.extend(3u32.to_be_bytes());
    unknown.extend(utf("a"));
    unknown.extend(0u64.to_be_bytes());
    assert_eq!(text(&unknown), Some("Unsupported JKS entry tag: 3".to_string()));
    assert!(matches!(parse_jks_trusted_certs(&unknown), Err(JksError::UnsupportedTag(3))));

    let mut long_alias = 0xFEED_FEEDu32.to_be_bytes().to_vec();
    long_alias.extend(2u32.to_be_bytes());
    long_alias.extend(1u32.to_be_bytes());
    long_alias.extend(1u32.to_be_bytes());
    long_alias.extend([0x00, 0x09, b'a', b'b']);
    assert_eq!(
        text(&long_alias),
        Some("Malformed JKS: UTF length 9 exceeds remaining bytes 2".to_string())
    );

    let mut long_cert = 0xFEED_FEEDu32.to_be_bytes().to_vec();
    long_cert.extend(1u32.to_be_bytes());
    long_cert.extend(1u32.to_be_bytes());
    long_cert.extend(1u32.to_be_bytes());
    long_cert.extend(utf("a"));
    long_cert.extend(0u64.to_be_bytes());
    long_cert.extend(utf("X.509"));
    long_cert.extend(300u32.to_be_bytes());
    long_cert.extend([1, 2, 3]);
    assert_eq!(
        text(&long_cert),
        Some("Malformed JKS: certificate length 300 exceeds remaining bytes 3".to_string())
    );

    let mut long_key = 0xFEED_FEEDu32.to_be_bytes().to_vec();
    long_key.extend(1u32.to_be_bytes());
    long_key.extend(1u32.to_be_bytes());
    long_key.extend(2u32.to_be_bytes());
    long_key.extend(utf("a"));
    long_key.extend(0u64.to_be_bytes());
    long_key.extend(5u32.to_be_bytes());
    assert_eq!(
        text(&long_key),
        Some("Malformed JKS: private key length 5 exceeds remaining bytes 0".to_string())
    );
    long_key.extend([0; 5]);
    long_key.extend(1u32.to_be_bytes());
    long_key.extend(utf("X.509"));
    long_key.extend(2u32.to_be_bytes());
    long_key.push(1);
    assert_eq!(
        text(&long_key),
        Some("Malformed JKS: chain certificate length 2 exceeds remaining bytes 1".to_string())
    );
    let cut = store(2, &[trusted_entry("root", &[1], &[], 1)]);
    assert_eq!(text(&cut[..cut.len() - 20]), Some("failed to fill whole buffer".to_string()));
}

#[test]
fn certificate_is_written_in_lines_of_sixty_four() {
    let der: Vec<u8> = (0u8..50).collect();
    let encoded = base64::Engine::encode(&base64::engine::general_purpose::STANDARD, &der);
    assert_eq!(encoded.len(), 68);
    let expected = format!(
        "-----BEGIN CERTIFICATE-----\n{}\n{}\n-----END CERTIFICATE-----\n",
        &encoded[..64],
        &encoded[64..]
    );
    assert_eq!(pem_certificate(&der), expected);
    assert_eq!(
        pem_certificate(&[0xFF; 48]),
        format!("-----BEGIN CERTIFICATE-----\n{}\n-----END CERTIFICATE-----\n", "/".repeat(64))
    );
    assert_eq!(
        pem_certificate(&[]),
        "-----BEGIN CERTIFICATE-----\n-----END CERTIFICATE-----\n"
    );
    assert_eq!(
        pem_certificate(b"hi"),
        "-----BEGIN CERTIFICATE-----\naGk=\n-----END CERTIFICATE-----\n"
    );
    assert_eq!(
        pem_certificates(&vec![b"hi".to_vec(), b"ho".to_vec()]),
        "-----BEGIN CERTIFICATE-----\naGk=\n-----END CERTIFICATE-----\n-----BEGIN CERTIFICATE-----\naG8=\n-----END CERTIFICATE-----\n"
    );
    assert_eq!(pem_certificates(&vec![]), "");
}

#[test]
fn trust_store_becomes_a_bundle() {
    let data = store(2, &[trusted_entry("root", b"hi", &[], 2), trusted_entry("sub", b"ho", &[], 2)]);
    assert!(minijks_can_read(&data));
    assert_eq!(
        jks_truststore_to_pem(&data, Some("changeit")),
        Ok("-----BEGIN CERTIFICATE-----\naGk=\n-----END CERTIFICATE-----\n-----BEGIN CERTIFICATE-----\naG8=\n-----END CERTIFICATE-----\n".to_string())
    );
    assert_eq!(
        jks_truststore_to_pem(&store(2, &[]), None),
        Err("No certificates found in truststore".to_string())
    );
    assert_eq!(
        jks_truststore_to_pem(&store(2, &[key_entry("me", &[1], &[], 2)]), None),
        Err("No certificates found in truststore".to_string())
    );
    assert_eq!(jks_truststore_to_pem(b"PEM?", None), Err("Not a JKS file (bad magic)".to_string()));
    assert_eq!(
        choose_certs(Some(vec![vec![1]]), b"PEM?"),
        Ok(vec![vec![1]])
    );
    assert_eq!(choose_certs(Some(vec![]), &data), Ok(vec![b"hi".to_vec(), b"ho".to_vec()]));
    assert_eq!(choose_certs(None, &data), Ok(vec![b"hi".to_vec(), b"ho".to_vec()]));
}

#[test]
fn other_reader_is_kept_from_tags_it_does_not_know() {
    let mut unknown = 0xFEED_FEEDu32.to_be_bytes().to_vec();
    unknown.extend(2u32.to_be_bytes());
    unknown.extend(1u32.to_be_bytes());
    unknown.extend(3u32.to_be_bytes());
    unknown.extend(utf("a"));
    assert!(!minijks_can_read(&unknown));
    assert_eq!(
        jks_truststore_to_pem(&unknown, None),
        Err("failed to fill whole buffer".to_string())
    );
    unknown[4..8].copy_from_slice(&1u32.to_be_bytes());
    assert!(minijks_can_read(&unknown));
    assert!(minijks_can_read(&[]));
    assert!(minijks_can_read(b"no key store at all"));
    // An entry that the other reader takes for a certificate, with an unknown tag behind.
    let mut second = 0xFEED_FEEDu32.to_be_bytes().to_vec();
    second.extend(2u32.to_be_bytes());
    second.extend(2u32.to_be_bytes());
    second.extend(2u32.to_be_bytes());
    second.extend(utf("a"));
    second.extend(0u64.to_be_bytes());
    second.extend(utf("X.509"));
    second.extend(block(&[1, 2]));
    second.extend(9u32.to_be_bytes());
    assert!(!minijks_can_read(&second));
    let cut = second.len() - 4;
    assert!(minijks_can_read(&second[..cut]));
    // A key pair as the other reader lays it out: key, count, chain.
    let mut pair = 0xFEED_FEEDu32.to_be_bytes().to_vec();
    pair.extend(2u32.to_be_bytes());
    pair.extend(2u32.to_be_bytes());
    pair.extend(1u32.to_be_bytes());
    pair.extend(utf("a"));
    pair.extend(0u64.to_be_bytes());
    pair.extend(block(&[5, 5, 5]));
    pair.extend(1u32.to_be_bytes());
    pair.extend(utf("X.509"));
    pair.extend(block(&[1]));
    pair.extend(0u32.to_be_bytes());
    assert!(!minijks_can_read(&pair));
    let last = pair.len() - 1;
    pair[last] = 2;
    assert!(minijks_can_read(&pair));
}

#[test]
fn kind_of_trust_store_goes_by_ending_and_content() {
    let jks = store(2, &[]);
    assert_eq!(detect_keystore_kind("/etc/ssl/certs", true, None), KeyStoreKind::PemOrDir);
    assert_eq!(detect_keystore_kind("store.jks", true, None), KeyStoreKind::PemOrDir);
    assert_eq!(detect_keystore_kind("ca.PEM", false, None), KeyStoreKind::PemOrDir);
    assert_eq!(detect_keystore_kind("ca.crt", false, None), KeyStoreKind::PemOrDir);
    assert_eq!(detect_keystore_kind("ca.Cer", false, None), KeyStoreKind::PemOrDir);
    assert_eq!(detect_keystore_kind("ca.bundle", false, None), KeyStoreKind::PemOrDir);
    assert_eq!(detect_keystore_kind("id.p12", false, None), KeyStoreKind::Pkcs12);
    assert_eq!(detect_keystore_kind("id.PFX", false, Some(&jks)), KeyStoreKind::Pkcs12);
    assert_eq!(detect_keystore_kind("trust.jceks", false, None), KeyStoreKind::JksOrJceks);
    assert_eq!(detect_keystore_kind("trust.jks", false, Some(&jks)), KeyStoreKind::JksOrJceks);
    assert_eq!(detect_keystore_kind("trust.JKS", false, Some(b"junk")), KeyStoreKind::Unknown);
    assert_eq!(detect_keystore_kind("trust.jks", false, Some(&[0xFE, 0xED])), KeyStoreKind::Unknown);
    assert_eq!(detect_keystore_kind("trust.jks", false, None), KeyStoreKind::Unknown);
    assert_eq!(detect_keystore_kind("trust.txt", false, Some(&jks)), KeyStoreKind::Unknown);
    assert_eq!(detect_keystore_kind("pem", false, None), KeyStoreKind::Unknown);
    assert!(pem_ending("x.pem"));
    assert!(!pem_ending("x.pem.bak"));
}

#[test]
fn archive_that_does_not_open_says_why() {
    let err = pkcs12_to_pem(b"no archive", Some("pw")).expect_err("no archive");
    assert!(err.starts_with("Failed to read PKCS#12: "), "{}", err);
    assert_eq!(
        pkcs12_to_pem(b"no archive", Some("p\0w")),
        Err("Failed to parse PKCS#12: the password holds a NUL character".to_string())
    );
    assert!(pkcs12_to_pem(&[], None).is_err());
}

fn self_signed(common_name: &str) -> (openssl::pkey::PKey<openssl::pkey::Private>, openssl::x509::X509) {
    let group = openssl::ec::EcGroup::from_curve_name(openssl::nid::Nid::X9_62_PRIME256V1)
        .expect("the curve is known");
    let key = openssl::pkey::PKey::from_ec_key(
        openssl::ec::EcKey::generate(&group).expect("a key is made"),
    )
    .expect("the key is wrapped");
    let mut name = openssl::x509::X509NameBuilder::new().expect("a name builder");
    name.append_entry_by_text("CN", common_name).expect("a common name");
    let name = name.build();
    let mut builder = openssl::x509::X509::builder().expect("a certificate builder");
    builder.set_version(2).expect("version");
    let serial = openssl::bn::BigNum::from_u32(7).and_then(|n| n.to_asn1_integer()).expect("serial");
    builder.set_serial_number(&serial).expect("serial set");
    builder.set_subject_name(&name).expect("subject");
    builder.set_issuer_name(&name).expect("issuer");
    builder.set_pubkey(&key).expect("public key");
    builder
        .set_not_before(&openssl::asn1::Asn1Time::days_from_now(0).expect("now"))
        .expect("not before");
    builder
        .set_not_after(&openssl::asn1::Asn1Time::days_from_now(30).expect("later"))
        .expect("not after");
    builder.sign(&key, openssl::hash::MessageDigest::sha256()).expect("signed");
    (key, builder.build())
}

#[test]
fn archive_gives_its_certificate_and_chain() {
    let (key, cert) = self_signed("leaf.example");
    let (_, issuer) = self_signed("ca.example");
    let mut chain = openssl::stack::Stack::new().expect("a stack");
    chain.push(issuer.clone()).expect("pushed");
    let archive = openssl::pkcs12::Pkcs12::builder()
        .name("leaf")
        .pkey(&key)
        .cert(&cert)
        .ca(chain)
        .build2("secret")
        .expect("an archive");
    let der = archive.to_der().expect("DER");
    let mut expected = cert.to_pem().expect("PEM");
    expected.extend(issuer.to_pem().expect("PEM"));
    assert_eq!(pkcs12_to_pem(&der, Some("secret")), Ok(expected));
    let err = pkcs12_to_pem(&der, Some("wrong")).expect_err("the password is wrong");
    assert!(err.starts_with("Failed to parse PKCS#12: "), "{}", err);
    assert_eq!(detect_keystore_kind("store.jks", false, Some(&der)), KeyStoreKind::Pkcs12);

    let only_chain = {
        let mut chain = openssl::stack::Stack::new().expect("a stack");
        chain.push(issuer.clone()).expect("pushed");
        openssl::pkcs12::Pkcs12::builder().ca(chain).build2("").expect("an archive")
    };
    let der = only_chain.to_der().expect("DER");
    assert_eq!(pkcs12_to_pem(&der, None), Ok(issuer.to_pem().expect("PEM")));
}

#[test]
fn only_a_jks_file_is_read_to_tell_its_kind() {
    assert!(needs_content("store.jks", false));
    assert!(needs_content("/etc/ssl/Store.JKS", false));
    assert!(!needs_content("store.jks", true));
    assert!(!needs_content("store.p12", false));
    assert!(!needs_content("store.jceks", false));
    assert!(!needs_content("ca.pem", false));
    assert!(!needs_content("store", false));
    assert!(!needs_content("", false));
}

#[test]
fn opened_archive_gives_its_bundle() {
    let (key, cert) = self_signed("leaf.example");
    let (_, first) = self_signed("first.example");
    let (_, second) = self_signed("second.example");
    let mut chain = openssl::stack::Stack::new().expect("a stack");
    chain.push(first.clone()).expect("pushed");
    chain.push(second.clone()).expect("pushed");
    let archive = openssl::pkcs12::Pkcs12::builder()
        .pkey(&key)
        .cert(&cert)
        .ca(chain)
        .build2("pw")
        .expect("an archive");
    let parsed = archive.parse2("pw").expect("the archive opens");
    let bundle = bundle_parsed(&parsed).expect("a bundle");
    let in_order: Vec<Vec<u8>> = match &parsed.ca {
        Some(stack) => stack.iter().map(|c| c.to_pem().expect("PEM")).collect(),
        None => Vec::new(),
    };
    assert_eq!(in_order.len(), 2);
    let mut expected = cert.to_pem().expect("PEM");
    for pem in &in_order {
        expected.extend(pem.iter().copied());
    }
    assert_eq!(bundle, expected);
    assert_ne!(bundle, cert.to_pem().expect("PEM"));

    let only_key = openssl::pkcs12::Pkcs12::builder().pkey(&key).build2("pw").expect("an archive");
    let parsed = only_key.parse2("pw").expect("the archive opens");
    assert_eq!(
        bundle_parsed(&parsed),
        Err("PKCS#12 archive does not contain any certificates".to_string())
    );
    let der = only_key.to_der().expect("DER");
    assert_eq!(
        pkcs12_to_pem(&der, Some("pw")),
        Err("PKCS#12 archive does not contain any certificates".to_string())
    );
}

#[test]
fn jaas_values_of_well_formed_text_are_that_text() {
    assert_eq!(
        parse_username_password_from_jaas("username=\"jos\u{e9}\" password='\u{43f}\u{430}\u{440}\u{43e}\u{43b}\u{44c} \u{1f511}';"),
        pair("jos\u{e9}", "\u{43f}\u{430}\u{440}\u{43e}\u{43b}\u{44c} \u{1f511}")
    );
}

#[test]
fn trust_store_in_the_other_layout_is_read_by_the_other_reader() {
    let (_, cert) = self_signed("root.example");
    let der = cert.to_der().expect("DER");
    // In this layout the tag of a certificate entry is two.
    let mut entry = 2u32.to_be_bytes().to_vec();
    entry.extend(utf("root"));
    entry.extend(0u64.to_be_bytes());
    entry.extend(utf("X.509"));
    entry.extend(block(&der));
    let mut data = 0xFEED_FEEDu32.to_be_bytes().to_vec();
    data.extend(2u32.to_be_bytes());
    data.extend(1u32.to_be_bytes());
    data.extend(entry);
    data.extend([0u8; 20]);
    assert!(minijks_can_read(&data));
    assert_eq!(jks_truststore_to_pem(&data, Some("changeit")), Ok(pem_certificate(&der)));
    let text = String::from_utf8(cert.to_pem().expect("PEM")).expect("PEM is text");
    assert_eq!(pem_certificate(&der), text);
}
