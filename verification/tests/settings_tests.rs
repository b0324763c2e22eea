use rkui::kafka::consumer::consumer_settings;
use rkui::kafka::security::KeyStoreKind;
use rkui::kafka::KafkaConfig;
use rkui::utils::kafka::{
    ca_bundle, ca_source, configure_sasl, configure_security, configure_ssl, is_likely_ca_path,
    security_type, ssl_mode, truststore_step, CaSource, SecurityType, SslMode, TruststoreStep,
};

fn pairs(list: &[(&str, &str)]) -> Vec<(String, String)> {
    list.iter().map(|(k, v)| (k.to_string(), v.to_string())).collect()
}

fn some(s: &str) -> Option<String> {
    Some(s.to_string())
}

#[test]
fn security_type_goes_by_name_then_by_switch() {
    let mut cfg = KafkaConfig::default();
    assert_eq!(security_type(&cfg), SecurityType::Plaintext);
    cfg.ssl_enabled = true;
    assert_eq!(security_type(&cfg), SecurityType::Ssl);
    cfg.security_type = some("PLAINTEXT");
    assert_eq!(security_type(&cfg), SecurityType::Plaintext);
    cfg.security_type = some("Sasl_Ssl");
    assert_eq!(security_type(&cfg), SecurityType::SaslSsl);
    cfg.security_type = some("sasl_plaintext");
    assert_eq!(security_type(&cfg), SecurityType::SaslPlaintext);
    cfg.security_type = some("SSL");
    assert_eq!(security_type(&cfg), SecurityType::Ssl);
    cfg.security_type = some("kerberos");
    assert_eq!(security_type(&cfg), SecurityType::Plaintext);
}

#[test]
fn ssl_mode_goes_by_name_then_by_fields() {
    let mut cfg = KafkaConfig::default();
    assert_eq!(ssl_mode(&cfg), SslMode::JavaLike);
    cfg.ssl_key_password = some("");
    assert_eq!(ssl_mode(&cfg), SslMode::Classic);
    cfg.ssl_mode = some("Java_Like");
    assert_eq!(ssl_mode(&cfg), SslMode::JavaLike);
    cfg.ssl_mode = some("other");
    assert_eq!(ssl_mode(&cfg), SslMode::Classic);
    cfg.ssl_key_password = None;
    assert_eq!(ssl_mode(&cfg), SslMode::JavaLike);
    cfg.ssl_mode = some("CLASSIC");
    assert_eq!(ssl_mode(&cfg), SslMode::Classic);
}

#[test]
fn ca_comes_from_files_or_from_the_trust_store() {
    let mut cfg = KafkaConfig::default();
    assert!(matches!(ca_source(&cfg), CaSource::Absent));
    cfg.truststore_location = some("/t/trust.jks");
    assert!(matches!(ca_source(&cfg), CaSource::Truststore(p) if p == "/t/trust.jks"));
    cfg.ssl_ca_sub = some("/c/sub.pem");
    assert!(matches!(ca_source(&cfg), CaSource::File(p) if p == "/c/sub.pem"));
    cfg.ssl_ca_root = some("/c/root.pem");
    assert!(matches!(ca_source(&cfg), CaSource::Bundle(r, s) if r == "/c/root.pem" && s == "/c/sub.pem"));
    cfg.ssl_ca_sub = None;
    assert!(matches!(ca_source(&cfg), CaSource::File(p) if p == "/c/root.pem"));
    cfg.ssl_mode = some("java_like");
    assert!(matches!(ca_source(&cfg), CaSource::Truststore(_)));
    cfg.ssl_mode = some("classic");
    cfg.ssl_ca_root = None;
    assert!(matches!(ca_source(&cfg), CaSource::Truststore(_)));
}

#[test]
fn trust_store_is_used_converted_or_passed_over() {
    assert_eq!(truststore_step(KeyStoreKind::PemOrDir, "x", false), TruststoreStep::UsePath);
    assert_eq!(truststore_step(KeyStoreKind::JksOrJceks, "x.pem", false), TruststoreStep::ConvertJks);
    assert_eq!(truststore_step(KeyStoreKind::Pkcs12, "x", true), TruststoreStep::ConvertPkcs12);
    assert_eq!(truststore_step(KeyStoreKind::Unknown, "x.txt", false), TruststoreStep::Skip);
    assert_eq!(truststore_step(KeyStoreKind::Unknown, "x.txt", true), TruststoreStep::UsePath);
    assert!(is_likely_ca_path("certs", true));
    assert!(is_likely_ca_path("ca.CRT", false));
    assert!(!is_likely_ca_path("ca.jks", false));
}

#[test]
fn bundle_ends_each_file_with_a_line_feed() {
    assert_eq!(ca_bundle(b"ROOT\n", b"SUB"), b"ROOT\nSUB\n".to_vec());
    assert_eq!(ca_bundle(b"ROOT", b"SUB\n"), b"ROOT\nSUB\n".to_vec());
    assert_eq!(ca_bundle(b"", b""), b"\n\n".to_vec());
}

#[test]
fn ssl_settings_follow_the_mode() {
    let mut cfg = KafkaConfig::default();
    cfg.ssl_certificate = some("/c/client.pem");
    cfg.ssl_key = some("/c/client.key");
    cfg.ssl_key_password = some("pw");
    assert_eq!(
        configure_ssl(&cfg, Some("/c/ca.pem")),
        pairs(&[
            ("ssl.ca.location", "/c/ca.pem"),
            ("ssl.certificate.location", "/c/client.pem"),
            ("ssl.key.location", "/c/client.key"),
            ("ssl.key.password", "pw"),
        ])
    );
    cfg.ssl_key_password = some("");
    assert_eq!(
        configure_ssl(&cfg, None),
        pairs(&[("ssl.certificate.location", "/c/client.pem"), ("ssl.key.location", "/c/client.key")])
    );
    cfg.ssl_mode = some("java_like");
    assert_eq!(configure_ssl(&cfg, Some("/c/ca.pem")), pairs(&[("ssl.ca.location", "/c/ca.pem")]));
    assert_eq!(configure_ssl(&cfg, None), pairs(&[]));
}

#[test]
fn sasl_settings_take_mechanism_and_credentials() {
    let mut cfg = KafkaConfig::default();
    assert_eq!(configure_sasl(&cfg), pairs(&[("sasl.mechanism", "SCRAM-SHA-512")]));
    cfg.sasl_mechanism = some("  ");
    assert_eq!(configure_sasl(&cfg), pairs(&[("sasl.mechanism", "SCRAM-SHA-512")]));
    cfg.sasl_mechanism = some(" PLAIN\t");
    cfg.sasl_jaas_config = some("username=\"u\" password=\"p\";");
    assert_eq!(
        configure_sasl(&cfg),
        pairs(&[("sasl.mechanism", "PLAIN"), ("sasl.username", "u"), ("sasl.password", "p")])
    );
    cfg.sasl_jaas_config = some("username=\"u\"");
    assert_eq!(configure_sasl(&cfg), pairs(&[("sasl.mechanism", "PLAIN")]));
}

#[test]
fn security_settings_begin_with_the_protocol() {
    let mut cfg = KafkaConfig::default();
    assert_eq!(configure_security(&cfg, Some("/ca")), pairs(&[]));
    cfg.security_type = some("ssl");
    assert_eq!(
        configure_security(&cfg, Some("/ca")),
        pairs(&[("security.protocol", "ssl"), ("ssl.ca.location", "/ca")])
    );
    cfg.security_type = some("sasl_plaintext");
    assert_eq!(
        configure_security(&cfg, Some("/ca")),
        pairs(&[("security.protocol", "sasl_plaintext"), ("sasl.mechanism", "SCRAM-SHA-512")])
    );
    cfg.security_type = some("SASL_SSL");
    cfg.sasl_jaas_config = some("username=u password=p");
    assert_eq!(
        configure_security(&cfg, Some("/ca")),
        pairs(&[
            ("security.protocol", "sasl_ssl"),
            ("ssl.ca.location", "/ca"),
            ("sasl.mechanism", "SCRAM-SHA-512"),
            ("sasl.username", "u"),
            ("sasl.password", "p"),
        ])
    );
}

#[test]
fn consumer_settings_name_each_base_setting_once() {
    let mut cfg = KafkaConfig::default();
    cfg.broker = "kafka-1:9093".to_string();
    let settings = consumer_settings(&cfg, None);
    assert_eq!(settings.len(), 18);
    assert_eq!(settings[0], ("bootstrap.servers".to_string(), "kafka-1:9093".to_string()));
    assert_eq!(settings[1], ("group.id".to_string(), "rkui-consumer".to_string()));
    let value = |key: &str| settings.iter().find(|(k, _)| k == key).map(|(_, v)| v.as_str());
    assert_eq!(value("enable.auto.commit"), Some("false"));
    assert_eq!(value("enable.partition.eof"), Some("false"));
    assert_eq!(value("auto.offset.reset"), Some("earliest"));
    assert_eq!(value("fetch.max.bytes"), Some("52428800"));
    assert_eq!(value("allow.auto.create.topics"), Some("false"));
    let mut keys: Vec<&str> = settings.iter().map(|(k, _)| k.as_str()).collect();
    keys.sort();
    keys.dedup();
    assert_eq!(keys.len(), 18);
    cfg.ssl_enabled = true;
    let secured = consumer_settings(&cfg, Some("/ca.pem"));
    assert_eq!(secured.len(), 20);
    assert_eq!(secured[18], ("security.protocol".to_string(), "ssl".to_string()));
    assert_eq!(secured[19], ("ssl.ca.location".to_string(), "/ca.pem".to_string()));
}
