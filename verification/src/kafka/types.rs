use vstd::prelude::*;
use super::decoder::MessageType;
use crate::text::owned;

verus! {

/// One decoded record, as it is shown to the user.
#[derive(Debug, Clone)]
pub struct UiMessage {
    /// Partition and offset joined by `-`; unique within a reading plan.
    pub id: String,
    pub partition: i32,
    pub key: String,
    pub offset: i64,
    pub message: String,
    /// RFC 3339 time in UTC, or empty when the record carries no usable time.
    pub timestamp: String,
    /// Set when the payload could not be decoded and `message` holds the raw text instead.
    pub decoding_error: Option<String>,
}

/// Connection and reading settings.
#[derive(Debug, Clone)]
pub struct KafkaConfig {
    pub broker: String,
    pub topic: String,
    /// Older switch for SSL; `security_type` takes precedence when it is set.
    pub ssl_enabled: bool,
    pub truststore_location: Option<String>,
    pub truststore_password: Option<String>,
    /// `java_like` or `classic`.
    pub ssl_mode: Option<String>,
    pub ssl_ca_root: Option<String>,
    pub ssl_ca_sub: Option<String>,
    pub ssl_certificate: Option<String>,
    pub ssl_key: Option<String>,
    pub ssl_key_password: Option<String>,
    /// `plaintext`, `ssl`, `sasl_plaintext` or `sasl_ssl`.
    pub security_type: Option<String>,
    pub sasl_mechanism: Option<String>,
    /// JAAS-like text from which user name and password are taken.
    pub sasl_jaas_config: Option<String>,
    pub message_type: MessageType,
    /// `all`, or the number of one partition.
    pub partition: Option<String>,
    /// First offset to read when one partition is selected.
    pub start_offset: Option<i64>,
    /// `oldest` or `newest`.
    pub start_from: Option<String>,
    pub proto_schema_path: Option<String>,
    pub proto_message_full_name: Option<String>,
    pub proto_descriptor_key: Option<String>,
}

impl KafkaConfig {
    /// The settings that `default` gives: a local broker, no topic, no security, JSON payloads,
    /// every partition from the oldest record on.
    pub open spec fn is_default(&self) -> bool {
        &&& self.broker@ == "localhost:9092"@
        &&& self.topic@ == Seq::<char>::empty()
        &&& !self.ssl_enabled
        &&& self.truststore_location is None
        &&& self.truststore_password is None
        &&& self.ssl_mode is None
        &&& self.ssl_ca_root is None
        &&& self.ssl_ca_sub is None
        &&& self.ssl_certificate is None
        &&& self.ssl_key is None
        &&& self.ssl_key_password is None
        &&& self.security_type is None
        &&& self.sasl_mechanism is None
        &&& self.sasl_jaas_config is None
        &&& self.message_type is Json
        &&& self.partition is None
        &&& self.start_offset is None
        &&& self.start_from matches Some(s) && s@ == "oldest"@
        &&& self.proto_schema_path is None
        &&& self.proto_message_full_name is None
        &&& self.proto_descriptor_key is None
    }
}

impl Default for KafkaConfig {
    fn default() -> (cfg: Self)
        ensures
            cfg.is_default(),
    {
        KafkaConfig {
            broker: owned("localhost:9092"),
            topic: String::new(),
            ssl_enabled: false,
            truststore_location: None,
            truststore_password: None,
            ssl_mode: None,
            ssl_ca_root: None,
            ssl_ca_sub: None,
            ssl_certificate: None,
            ssl_key: None,
            ssl_key_password: None,
            security_type: None,
            sasl_mechanism: None,
            sasl_jaas_config: None,
            message_type: MessageType::Json,
            partition: None,
            start_offset: None,
            start_from: Some(owned("oldest")),
            proto_schema_path: None,
            proto_message_full_name: None,
            proto_descriptor_key: None,
        }
    }
}

} // verus!
