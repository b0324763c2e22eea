pub mod assignment;
pub mod consumer;
pub mod decoder;
pub mod laws;
pub mod reader;
pub mod security;
pub mod service;
pub mod types;

pub use decoder::{decoder_for, MessageDecoder, MessageType};
pub use service::Kafka;
pub use types::{KafkaConfig, UiMessage};
