pub mod jaas;
pub mod jks;
pub mod kind;
pub mod pem;
pub mod pkcs12;
pub mod truststore;

pub use jaas::{credentials_of, parse_username_password_from_jaas};
pub use jks::{parse_jks_trusted_certs, JksError};
pub use kind::{detect_keystore_kind, has_pem_ending, needs_content, pem_ending, KeyStoreKind};
pub use pem::{pem_certificate, pem_certificates};
pub use pkcs12::{bundle_parsed, pkcs12_to_pem};
pub use truststore::{choose_certs, jks_truststore_to_pem, minijks_can_read};
