use vstd::prelude::*;
use crate::kafka::security::{
    credentials_of, has_pem_ending, parse_username_password_from_jaas, pem_ending, KeyStoreKind,
};
use crate::kafka::types::KafkaConfig;
use crate::text::{ascii_lower, lower_is, owned, trim_text, trimmed};

verus! {

/// One setting of the client: its name and its value.
pub type Setting = (String, String);

/// Name and value of a setting, as plain values.
pub open spec fn setting_view(s: Setting) -> (Seq<char>, Seq<char>) {
    (s.0@, s.1@)
}

/// Names and values of a list of settings, as plain values.
pub open spec fn settings_view(list: Seq<Setting>) -> Seq<(Seq<char>, Seq<char>)> {
    list.map_values(|s: Setting| setting_view(s))
}

/// Appends a setting.
pub fn put(list: &mut Vec<Setting>, key: &str, value: &str)
    ensures
        settings_view(final(list)@) == settings_view(old(list)@).push((key@, value@)),
{
    list.push((owned(key), owned(value)));
    assert(settings_view(list@) =~= settings_view(old(list)@).push((key@, value@)));
}

/// How the client talks to the brokers.
#[derive(Debug, Clone, Copy, PartialEq, Eq)]
pub enum SecurityType {
    Plaintext,
    Ssl,
    SaslPlaintext,
    SaslSsl,
}

/// The text of an optional string, as a plain value.
pub open spec fn text_of(s: Option<String>) -> Option<Seq<char>> {
    match s {
        Some(v) => Some(v@),
        None => None,
    }
}

/// The security type that the settings ask for: the one named, in any case of letters, and
/// plaintext for any other name; without a name, SSL if the older switch is on.
pub open spec fn security_type_of(named: Option<Seq<char>>, ssl_enabled: bool) -> SecurityType {
    match named {
        Some(name) => {
            let lower = ascii_lower(name);
            if lower == "ssl"@ {
                SecurityType::Ssl
            } else if lower == "sasl_plaintext"@ {
                SecurityType::SaslPlaintext
            } else if lower == "sasl_ssl"@ {
                SecurityType::SaslSsl
            } else {
                SecurityType::Plaintext
            }
        },
        None => if ssl_enabled {
            SecurityType::Ssl
        } else {
            SecurityType::Plaintext
        },
    }
}

/// Tells the security type that the settings ask for.
pub fn security_type(config: &KafkaConfig) -> (t: SecurityType)
    ensures
        t == security_type_of(text_of(config.security_type), config.ssl_enabled),
{
    match &config.security_type {
        Some(name) => {
            if lower_is(name.as_str(), "ssl") {
                SecurityType::Ssl
            } else if lower_is(name.as_str(), "sasl_plaintext") {
                SecurityType::SaslPlaintext
            } else if lower_is(name.as_str(), "sasl_ssl") {
                SecurityType::SaslSsl
            } else {
                SecurityType::Plaintext
            }
        },
        None => if config.ssl_enabled {
            SecurityType::Ssl
        } else {
            SecurityType::Plaintext
        },
    }
}

/// Whether a path can be given to the client as its CA location: a directory, or a file
/// with a PEM ending.
pub fn is_likely_ca_path(p: &str, is_dir: bool) -> (r: bool)
    ensures
        r == (is_dir || has_pem_ending(p@)),
{
    is_dir || pem_ending(p)
}

/// How the SSL settings are read.
#[derive(Debug, Clone, Copy, PartialEq, Eq)]
pub enum SslMode {
    /// CA files and a client certificate with its key.
    Classic,
    /// A trust store only.
    JavaLike,
}

/// Where the certificates of the CA come from.
#[derive(Debug)]
pub enum CaSource {
    /// Nowhere: the client keeps its default.
    Absent,
    /// From this file.
    File(String),
    /// From the root file and the sub file, joined into one bundle.
    Bundle(String, String),
    /// From the trust store at this path, by its kind.
    Truststore(String),
}

/// The settings name a file of the classic kind.
pub open spec fn has_classic_fields(config: KafkaConfig) -> bool {
    config.ssl_ca_root is Some || config.ssl_ca_sub is Some || config.ssl_certificate is Some
        || config.ssl_key is Some || config.ssl_key_password is Some
}

/// The mode in which the SSL settings are read: the one named, in any case of letters;
/// else classic exactly when a file of the classic kind is named.
pub open spec fn ssl_mode_of(config: KafkaConfig) -> SslMode {
    let named = match config.ssl_mode {
        Some(m) => Some(ascii_lower(m@)),
        None => None,
    };
    if named == Some("classic"@) {
        SslMode::Classic
    } else if named == Some("java_like"@) {
        SslMode::JavaLike
    } else if has_classic_fields(config) {
        SslMode::Classic
    } else {
        SslMode::JavaLike
    }
}

/// Tells the mode in which the SSL settings are read.
pub fn ssl_mode(config: &KafkaConfig) -> (m: SslMode)
    ensures
        m == ssl_mode_of(*config),
{
    let classic_fields: bool = config.ssl_ca_root.is_some() || config.ssl_ca_sub.is_some()
        || config.ssl_certificate.is_some() || config.ssl_key.is_some()
        || config.ssl_key_password.is_some();
    match &config.ssl_mode {
        Some(m) => {
            if lower_is(m.as_str(), "classic") {
                return SslMode::Classic;
            }
            if lower_is(m.as_str(), "java_like") {
                return SslMode::JavaLike;
            }
        },
        None => {},
    }
    if classic_fields {
        SslMode::Classic
    } else {
        SslMode::JavaLike
    }
}

/// Where the certificates of the CA come from, as plain values.
pub enum CaSourceView {
    Absent,
    File(Seq<char>),
    Bundle(Seq<char>, Seq<char>),
    Truststore(Seq<char>),
}

impl View for CaSource {
    type V = CaSourceView;

    open spec fn view(&self) -> CaSourceView {
        match self {
            CaSource::Absent => CaSourceView::Absent,
            CaSource::File(p) => CaSourceView::File(p@),
            CaSource::Bundle(r, s) => CaSourceView::Bundle(r@, s@),
            CaSource::Truststore(p) => CaSourceView::Truststore(p@),
        }
    }
}

/// Where the settings take the certificates of the CA from: in classic mode from the root
/// and sub files, both joined or the one that is named, and from the trust store where
/// neither is named; in the other mode from the trust store.
pub open spec fn ca_source_of(config: KafkaConfig) -> CaSourceView {
    let store = match config.truststore_location {
        Some(p) => CaSourceView::Truststore(p@),
        None => CaSourceView::Absent,
    };
    if ssl_mode_of(config) is Classic {
        match (config.ssl_ca_root, config.ssl_ca_sub) {
            (Some(r), Some(s)) => CaSourceView::Bundle(r@, s@),
            (Some(r), None) => CaSourceView::File(r@),
            (None, Some(s)) => CaSourceView::File(s@),
            (None, None) => store,
        }
    } else {
        store
    }
}

/// Tells where the settings take the certificates of the CA from.
pub fn ca_source(config: &KafkaConfig) -> (r: CaSource)
    ensures
        r@ == ca_source_of(*config),
{
    match ssl_mode(config) {
        SslMode::Classic => match (&config.ssl_ca_root, &config.ssl_ca_sub) {
            (Some(r), Some(s)) => {
                return CaSource::Bundle(r.clone(), s.clone());
            },
            (Some(r), None) => {
                return CaSource::File(r.clone());
            },
            (None, Some(s)) => {
                return CaSource::File(s.clone());
            },
            (None, None) => {},
        },
        SslMode::JavaLike => {},
    }
    match &config.truststore_location {
        Some(p) => CaSource::Truststore(p.clone()),
        None => CaSource::Absent,
    }
}

/// What is done with a trust store of a kind.
#[derive(Debug, Clone, Copy, PartialEq, Eq)]
pub enum TruststoreStep {
    /// Its path is the CA location.
    UsePath,
    /// It is converted from a Java key store to a PEM bundle.
    ConvertJks,
    /// It is converted from PKCS#12 to a PEM bundle.
    ConvertPkcs12,
    /// It is passed over: the client keeps its default.
    Skip,
}

/// Tells what is done with the trust store at `path`: PEM is used as it is, a key store or
/// an archive is converted, and anything else is used only if its path can be a CA
/// location.
pub fn truststore_step(kind: KeyStoreKind, path: &str, is_dir: bool) -> (step: TruststoreStep)
    ensures
        step == (match kind {
            KeyStoreKind::PemOrDir => TruststoreStep::UsePath,
            KeyStoreKind::JksOrJceks => TruststoreStep::ConvertJks,
            KeyStoreKind::Pkcs12 => TruststoreStep::ConvertPkcs12,
            KeyStoreKind::Unknown => if is_dir || has_pem_ending(path@) {
                TruststoreStep::UsePath
            } else {
                TruststoreStep::Skip
            },
        }),
{
    match kind {
        KeyStoreKind::PemOrDir => TruststoreStep::UsePath,
        KeyStoreKind::JksOrJceks => TruststoreStep::ConvertJks,
        KeyStoreKind::Pkcs12 => TruststoreStep::ConvertPkcs12,
        KeyStoreKind::Unknown => if is_likely_ca_path(path, is_dir) {
            TruststoreStep::UsePath
        } else {
            TruststoreStep::Skip
        },
    }
}

/// One file of a bundle: its bytes, with a line feed behind them unless they end in one.
pub open spec fn bundle_part(data: Seq<u8>) -> Seq<u8> {
    if data.len() > 0 && data.last() == 0x0A {
        data
    } else {
        data + seq![0x0Au8]
    }
}

/// Joins the root file and the sub file of a CA into one bundle, each ended by a line feed.
pub fn ca_bundle(root: &[u8], sub: &[u8]) -> (r: Vec<u8>)
    ensures
        r@ == bundle_part(root@) + bundle_part(sub@),
{
    let mut out: Vec<u8> = Vec::new();
    add_part(&mut out, root);
    add_part(&mut out, sub);
    assert(out@ =~= bundle_part(root@) + bundle_part(sub@));
    out
}

/// Appends one file of a bundle.
fn add_part(out: &mut Vec<u8>, data: &[u8])
    ensures
        final(out)@ == old(out)@ + bundle_part(data@),
{
    let mut i: usize = 0;
    while i < data.len()
        invariant
            i <= data.len(),
            out@ == old(out)@ + data@.subrange(0, i as int),
        decreases data.len() - i,
    {
        out.push(data[i]);
        assert(out@ =~= old(out)@ + data@.subrange(0, i + 1));
        i += 1;
    }
    assert(data@.subrange(0, data@.len() as int) =~= data@);
    if data.len() == 0 || data[data.len() - 1] != 0x0A {
        out.push(0x0A);
        assert(out@ =~= old(out)@ + (data@ + seq![0x0Au8]));
    }
}

/// The SSL settings: the CA location where there is one; in classic mode also the client
/// certificate, its key, and the password of the key where it is not empty.
pub open spec fn ssl_settings(config: KafkaConfig, ca_location: Option<Seq<char>>) -> Seq<
    (Seq<char>, Seq<char>),
> {
    let ca = match ca_location {
        Some(p) => seq![("ssl.ca.location"@, p)],
        None => Seq::empty(),
    };
    if ssl_mode_of(config) is Classic {
        ca + (match config.ssl_certificate {
            Some(c) => seq![("ssl.certificate.location"@, c@)],
            None => Seq::empty(),
        }) + (match config.ssl_key {
            Some(k) => seq![("ssl.key.location"@, k@)],
            None => Seq::empty(),
        }) + (match config.ssl_key_password {
            Some(p) => if p@.len() > 0 {
                seq![("ssl.key.password"@, p@)]
            } else {
                Seq::empty()
            },
            None => Seq::empty(),
        })
    } else {
        ca
    }
}

/// Lists the SSL settings for the client. `ca_location` is the path that `ca_source` led
/// to, if it led to one.
pub fn configure_ssl(config: &KafkaConfig, ca_location: Option<&str>) -> (r: Vec<Setting>)
    ensures
        settings_view(r@) == ssl_settings(
            *config,
            match ca_location {
                Some(p) => Some(p@),
                None => None,
            },
        ),
{
    let mut out: Vec<Setting> = Vec::new();
    assert(settings_view(out@) =~= Seq::<(Seq<char>, Seq<char>)>::empty());
    match ca_location {
        Some(p) => {
            put(&mut out, "ssl.ca.location", p);
        },
        None => {},
    }
    let ghost ca = settings_view(out@);
    match ssl_mode(config) {
        SslMode::Classic => {
            match &config.ssl_certificate {
                Some(c) => {
                    put(&mut out, "ssl.certificate.location", c.as_str());
                },
                None => {},
            }
            match &config.ssl_key {
                Some(k) => {
                    put(&mut out, "ssl.key.location", k.as_str());
                },
                None => {},
            }
            match &config.ssl_key_password {
                Some(p) => {
                    if p.as_str().unicode_len() > 0 {
                        put(&mut out, "ssl.key.password", p.as_str());
                    }
                },
                None => {},
            }
            assert(settings_view(out@) =~= ssl_settings(
                *config,
                match ca_location {
                    Some(p) => Some(p@),
                    None => None,
                },
            ));
        },
        SslMode::JavaLike => {},
    }
    out
}

/// The SASL mechanism in use when the settings name none.
pub open spec fn default_mechanism() -> Seq<char> {
    "SCRAM-SHA-512"@
}

/// The SASL mechanism: the one named, without white space around it, or the default where
/// none is named.
pub open spec fn mechanism_of(named: Option<Seq<char>>) -> Seq<char> {
    match named {
        Some(m) => if trimmed(m).len() > 0 {
            trimmed(m)
        } else {
            default_mechanism()
        },
        None => default_mechanism(),
    }
}

/// The SASL settings: the mechanism, and user name and password where the JAAS text gives
/// both.
pub open spec fn sasl_settings(config: KafkaConfig) -> Seq<(Seq<char>, Seq<char>)> {
    let mechanism = seq![("sasl.mechanism"@, mechanism_of(text_of(config.sasl_mechanism)))];
    match config.sasl_jaas_config {
        Some(jaas) => match credentials_of(jaas@) {
            Some((user, pass)) => mechanism + seq![("sasl.username"@, user)] + seq![
                ("sasl.password"@, pass),
            ],
            None => mechanism,
        },
        None => mechanism,
    }
}

/// Lists the SASL settings for the client.
pub fn configure_sasl(config: &KafkaConfig) -> (r: Vec<Setting>)
    ensures
        settings_view(r@) == sasl_settings(*config),
{
    let mut out: Vec<Setting> = Vec::new();
    assert(settings_view(out@) =~= Seq::<(Seq<char>, Seq<char>)>::empty());
    let mut named: bool = false;
    match &config.sasl_mechanism {
        Some(m) => {
            let t = trim_text(m.as_str());
            if t.unicode_len() > 0 {
                put(&mut out, "sasl.mechanism", t);
                named = true;
            }
        },
        None => {},
    }
    if !named {
        put(&mut out, "sasl.mechanism", "SCRAM-SHA-512");
    }
    match &config.sasl_jaas_config {
        Some(jaas) => {
            match parse_username_password_from_jaas(jaas.as_str()) {
                Some((user, pass)) => {
                    put(&mut out, "sasl.username", user.as_str());
                    put(&mut out, "sasl.password", pass.as_str());
                },
                None => {},
            }
        },
        None => {},
    }
    assert(settings_view(out@) =~= sasl_settings(*config));
    out
}

/// The name of a security type as the client knows it.
pub open spec fn protocol_name(t: SecurityType) -> Seq<char> {
    match t {
        SecurityType::Plaintext => "plaintext"@,
        SecurityType::Ssl => "ssl"@,
        SecurityType::SaslPlaintext => "sasl_plaintext"@,
        SecurityType::SaslSsl => "sasl_ssl"@,
    }
}

/// The security settings: none for plaintext; else the protocol, then the SSL settings
/// where the protocol uses SSL, then the SASL settings where it uses SASL.
pub open spec fn security_settings(config: KafkaConfig, ca_location: Option<Seq<char>>) -> Seq<
    (Seq<char>, Seq<char>),
> {
    let t = security_type_of(text_of(config.security_type), config.ssl_enabled);
    let protocol = seq![("security.protocol"@, protocol_name(t))];
    match t {
        SecurityType::Plaintext => Seq::empty(),
        SecurityType::Ssl => protocol + ssl_settings(config, ca_location),
        SecurityType::SaslPlaintext => protocol + sasl_settings(config),
        SecurityType::SaslSsl => protocol + ssl_settings(config, ca_location) + sasl_settings(
            config,
        ),
    }
}

/// Appends all settings of `more` to `list`.
pub fn put_all(list: &mut Vec<Setting>, more: Vec<Setting>)
    ensures
        settings_view(final(list)@) == settings_view(old(list)@) + settings_view(more@),
{
    let mut rest = more;
    let ghost all = more@;
    let mut taken: Vec<Setting> = Vec::new();
    while rest.len() > 0
        invariant
            rest@.len() + taken@.len() == all.len(),
            forall|k: int| 0 <= k < rest@.len() ==> rest@[k] == all[k],
            forall|k: int| 0 <= k < taken@.len() ==> taken@[k] == all[all.len() - 1 - k],
        decreases rest@.len(),
    {
        match rest.pop() {
            Some(s) => {
                taken.push(s);
            },
            None => {},
        }
    }
    while taken.len() > 0
        invariant
            taken@.len() <= all.len(),
            forall|k: int| 0 <= k < taken@.len() ==> taken@[k] == all[all.len() - 1 - k],
            list@ == old(list)@ + all.subrange(0, all.len() - taken@.len()),
        decreases taken@.len(),
    {
        match taken.pop() {
            Some(s) => {
                list.push(s);
                assert(list@ =~= old(list)@ + all.subrange(0, all.len() - taken@.len()));
            },
            None => {},
        }
    }
    assert(all.subrange(0, all.len() as int) =~= all);
    assert(settings_view(list@) =~= settings_view(old(list)@) + settings_view(all));
}

/// Lists the security settings for the client. `ca_location` is the path that `ca_source`
/// led to, if it led to one.
pub fn configure_security(config: &KafkaConfig, ca_location: Option<&str>) -> (r: Vec<Setting>)
    ensures
        settings_view(r@) == security_settings(
            *config,
            match ca_location {
                Some(p) => Some(p@),
                None => None,
            },
        ),
{
    let mut out: Vec<Setting> = Vec::new();
    assert(settings_view(out@) =~= Seq::<(Seq<char>, Seq<char>)>::empty());
    match security_type(config) {
        SecurityType::Plaintext => {},
        SecurityType::Ssl => {
            put(&mut out, "security.protocol", "ssl");
            put_all(&mut out, configure_ssl(config, ca_location));
        },
        SecurityType::SaslPlaintext => {
            put(&mut out, "security.protocol", "sasl_plaintext");
            put_all(&mut out, configure_sasl(config));
        },
        SecurityType::SaslSsl => {
            put(&mut out, "security.protocol", "sasl_ssl");
            put_all(&mut out, configure_ssl(config, ca_location));
            put_all(&mut out, configure_sasl(config));
        },
    }
    assert(settings_view(out@) =~= security_settings(
        *config,
        match ca_location {
            Some(p) => Some(p@),
            None => None,
        },
    ));
    out
}

} // verus!
