pub mod json;
pub mod kafka;
pub mod kafka_adapter;
pub mod proto_decoder;
pub mod text;
pub mod utils;
