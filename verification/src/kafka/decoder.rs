use vstd::prelude::*;
use crate::text::{lossy_string, shows};

verus! {

/// Payload formats that a reader can be asked to decode.
#[derive(Debug, Clone, Copy)]
pub enum MessageType {
    Json,
    Text,
    Protobuf,
}

/// The bytes of an optional slice, as a plain value.
pub open spec fn opt_bytes(b: Option<&[u8]>) -> Option<Seq<u8>> {
    match b {
        Some(s) => Some(s@),
        None => None,
    }
}

/// Lossy text of an optional byte slice: for well-formed UTF-8 the text that the bytes
/// encode; the empty string when there is none.
pub fn lossy_text_of(bytes: Option<&[u8]>) -> (s: String)
    ensures
        shows(opt_bytes(bytes), s@),
{
    match bytes {
        Some(b) => lossy_string(b),
        None => String::new(),
    }
}

/// Turns the raw key and payload of a record into displayable text.
pub trait MessageDecoder: Send + Sync {
    /// Decodes both parts as lossy UTF-8: a part that is well-formed UTF-8 gives the text
    /// that it encodes, a missing part the empty string.
    fn decode(&self, key: Option<&[u8]>, payload: Option<&[u8]>) -> (r: (String, String))
        ensures
            shows(opt_bytes(key), r.0@),
            shows(opt_bytes(payload), r.1@),
    ;
}

/// Decoder for plain text payloads.
pub struct TextDecoder;

impl MessageDecoder for TextDecoder {
    fn decode(&self, key: Option<&[u8]>, payload: Option<&[u8]>) -> (r: (String, String)) {
        let k = lossy_text_of(key);
        let v = lossy_text_of(payload);
        (k, v)
    }
}

/// Decoder for JSON payloads; the text is passed on without validation.
pub struct JsonDecoder;

impl MessageDecoder for JsonDecoder {
    fn decode(&self, key: Option<&[u8]>, payload: Option<&[u8]>) -> (r: (String, String)) {
        let k = lossy_text_of(key);
        let v = lossy_text_of(payload);
        (k, v)
    }
}

/// Decoder for protobuf payloads when no schema is at hand: the bytes are shown as text.
pub struct ProtobufDecoder;

impl MessageDecoder for ProtobufDecoder {
    fn decode(&self, key: Option<&[u8]>, payload: Option<&[u8]>) -> (r: (String, String)) {
        let k = lossy_text_of(key);
        let v = lossy_text_of(payload);
        (k, v)
    }
}

/// The decoder for a payload format.
pub fn decoder_for(ty: &MessageType) -> (d: Box<dyn MessageDecoder>) {
    match ty {
        MessageType::Json => Box::new(JsonDecoder),
        MessageType::Text => Box::new(TextDecoder),
        MessageType::Protobuf => Box::new(ProtobufDecoder),
    }
}

} // verus!
