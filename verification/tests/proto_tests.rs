use protobuf::descriptor::field_descriptor_proto::{Label, Type};
use protobuf::descriptor::{DescriptorProto, FieldDescriptorProto, FileDescriptorProto};
use protobuf::reflect::FileDescriptor;
use rkui::kafka::reader::{PollEvent, RawRecord, RecordTimestamp};
use rkui::kafka::service::Step;
use rkui::kafka::assignment::Watermarks;
use rkui::kafka::{Kafka, KafkaConfig, MessageType};
use rkui::proto_decoder::views::{candidate_views, parse_varint, skip_n_varints};
use rkui::proto_decoder::{
    decode_outcome, normalize_json, render_outcome, ProtoDecoder, ViewFailure,
};

fn field(name: &str, number: i32, ty: Type) -> FieldDescriptorProto {
    let mut f = FieldDescriptorProto::new();
    f.set_name(name.to_string());
    f.set_number(number);
    f.set_type(ty);
    f.set_label(Label::LABEL_OPTIONAL);
    f
}

fn person_file() -> FileDescriptor {
    let mut person = DescriptorProto::new();
    person.set_name("Person".to_string());
    person.field.push(field("name", 1, Type::TYPE_STRING));
    person.field.push(field("id", 2, Type::TYPE_INT32));
    person.field.push(field("email", 3, Type::TYPE_STRING));
    let mut file = FileDescriptorProto::new();
    file.set_name("example.proto".to_string());
    file.set_package("example".to_string());
    file.set_syntax("proto3".to_string());
    file.message_type.push(person);
    FileDescriptor::new_dynamic(file, &[]).expect("the example schema links")
}

fn person_decoder() -> ProtoDecoder {
    ProtoDecoder::new(vec![person_file()], Some(".example.Person".to_string()))
}

/// `{name: "A", id: 1, email: "a@b"}` on the wire.
fn person_bytes() -> Vec<u8> {
    vec![0x0A, 0x01, 0x41, 0x10, 0x01, 0x1A, 0x03, 0x61, 0x40, 0x62]
}

const PERSON_JSON: &str = "{\"email\":\"a@b\",\"id\":1,\"name\":\"A\"}";

#[test]
fn decode_example_person_raw_or_length_prefixed() {
    let decoder = person_decoder();
    let json = decoder.decode(&person_bytes()).expect("decode should succeed");
    assert!(json.contains("name"), "json should include 'name': {}", json);
    assert!(json.contains("id"), "json should include 'id': {}", json);
    assert!(json.contains("email"), "json should include 'email': {}", json);
    let val: serde_json::Value = serde_json::from_str(&json).expect("decoder must output valid JSON");
    let compact = serde_json::to_string(&val).unwrap();
    assert_eq!(json, compact, "Protobuf JSON must be compact (no spaces/newlines). Got: {}", json);
    assert_eq!(json, PERSON_JSON);
}

#[test]
fn decoder_strips_registry_envelope() {
    let decoder = person_decoder();
    let mut plain = vec![0x00, 0x00, 0x00, 0x00, 0x07];
    plain.extend(person_bytes());
    assert_eq!(decoder.decode(&plain), Ok(PERSON_JSON.to_string()));
    let mut indexed = vec![0x00, 0x00, 0x00, 0x00, 0x07, 0x00];
    indexed.extend(person_bytes());
    assert_eq!(decoder.decode(&indexed), Ok(PERSON_JSON.to_string()));
    let mut counted = vec![0x00, 0x00, 0x00, 0x00, 0x07, 0x02, 0x01, 0x80, 0x01];
    counted.extend(person_bytes());
    assert_eq!(decoder.decode(&counted), Ok(PERSON_JSON.to_string()));
}

#[test]
fn decoder_strips_grpc_frame() {
    let decoder = person_decoder();
    let mut framed = vec![0x01, 0x00, 0x00, 0x00, 0x0A];
    framed.extend(person_bytes());
    assert_eq!(decoder.decode(&framed), Ok(PERSON_JSON.to_string()));
}

#[test]
fn decoder_strips_length_prefix() {
    let decoder = person_decoder();
    let mut prefixed = vec![0x0A];
    prefixed.extend(person_bytes());
    assert!(candidate_views(&prefixed).contains(&(1, 11)));
    assert_eq!(decoder.decode(&prefixed), Ok(PERSON_JSON.to_string()));
}

#[test]
fn decoder_reads_a_payload_without_envelope_as_it_stands() {
    let decoder = person_decoder();
    let whole = vec![0x10, 0x01, 0x10, 0x02];
    assert_eq!(candidate_views(&whole), vec![(0, 4)]);
    assert_eq!(decoder.decode(&whole), Ok("{\"id\":2}".to_string()));
    let prefixed = vec![0x02, 0x10, 0x07];
    assert_eq!(candidate_views(&prefixed), vec![(0, 3), (1, 3)]);
    assert_eq!(decoder.decode(&prefixed), Ok("{\"id\":7}".to_string()));
}

#[test]
fn decoder_repairs_a_missing_first_tag() {
    let decoder = person_decoder();
    assert_eq!(decoder.decode(&[0x03, 0x61, 0x62, 0x63]), Ok("{\"name\":\"abc\"}".to_string()));
}

#[test]
fn decoder_says_why_it_failed() {
    let decoder = person_decoder();
    let err = decoder.decode(&[0xFF, 0xFF, 0xFF]).expect_err("no message");
    assert!(err.starts_with("Failed to parse protobuf payload as .example.Person (repaired): "), "{}", err);

    let unselected = ProtoDecoder::new(vec![person_file()], None);
    assert_eq!(
        unselected.decode(&person_bytes()),
        Err("No protobuf message is selected. Select a specific message type to enable decoding.".to_string())
    );
    let unknown = ProtoDecoder::new(vec![person_file()], Some("example.Nobody".to_string()));
    assert_eq!(
        unknown.decode(&person_bytes()),
        Err("Message type not found in descriptors: .example.Nobody".to_string())
    );
    let empty = ProtoDecoder::new(vec![], Some("example.Person".to_string()));
    assert_eq!(
        empty.decode(&person_bytes()),
        Err("Message type not found in descriptors: .example.Person".to_string())
    );
    let plain = ProtoDecoder::new(vec![person_file()], Some("example.Person".to_string()));
    assert_eq!(plain.decode(&person_bytes()), Ok(PERSON_JSON.to_string()));
    assert_eq!(person_decoder().message_full_name.as_deref(), Some("example.Person"));
}

#[test]
fn last_attempt_decides_the_answer() {
    assert_eq!(decode_outcome("a.B", Ok("{ \"x\" : 1 }".to_string())), Ok("{\"x\":1}".to_string()));
    assert_eq!(decode_outcome("a.B", Ok("not json".to_string())), Ok("not json".to_string()));
    assert_eq!(
        decode_outcome("a.B", Err(ViewFailure::Print("nan".to_string()))),
        Err("Failed to serialize protobuf JSON: nan".to_string())
    );
    assert_eq!(
        decode_outcome("a.B", Err(ViewFailure::Parse("eof".to_string()))),
        Err("Failed to parse protobuf payload as .a.B (repaired): eof".to_string())
    );
    assert_eq!(normalize_json("[ 1,\n 2 ]".to_string()), "[1,2]");
    assert_eq!(normalize_json("{\"b\":1, \"a\":2}".to_string()), "{\"a\":2,\"b\":1}");
}

#[test]
fn outcome_is_shown_as_json_or_as_raw_text_with_the_reason() {
    assert_eq!(
        render_outcome(&[0x41, 0x42], Ok("{\"a\":1}".to_string())),
        ("{\"a\":1}".to_string(), None)
    );
    assert_eq!(
        render_outcome(&[0x41, 0xFF, 0x42], Err("no luck".to_string())),
        ("A\u{FFFD}B".to_string(), Some("Protobuf decode error: no luck".to_string()))
    );
    assert_eq!(
        render_outcome(&[], Err(String::new())),
        (String::new(), Some("Protobuf decode error: ".to_string()))
    );
}

#[test]
fn rendering_keeps_raw_text_when_decoding_fails() {
    let decoder = person_decoder();
    let (text, error) = decoder.render(&person_bytes());
    assert_eq!(text, PERSON_JSON);
    assert!(error.is_none());
    let (text, error) = decoder.render(&[0xFF, 0x41]);
    assert_eq!(text, "\u{FFFD}A");
    let error = error.expect("the reason is attached");
    assert!(error.starts_with("Protobuf decode error: Failed to parse protobuf payload as .example.Person (repaired): "));
}

#[test]
fn reader_hands_out_undecodable_records_with_the_error() {
    let mut cfg = KafkaConfig::default();
    cfg.message_type = MessageType::Protobuf;
    cfg.proto_schema_path = Some("example.proto".to_string());
    cfg.partition = Some("0".to_string());
    let mut k = Kafka::new(cfg, Some(person_decoder())).expect("schema and decoder are given");
    assert!(matches!(k.ensure_assigned(&vec![Watermarks { partition: 0, low: 0, high: 3 }]), Ok(Some(_))));
    let events = vec![
        (0, Some(person_bytes())),
        (1, Some(vec![0xFF, 0xFF])),
        (2, None),
    ];
    assert!(matches!(k.consume_next(10), Step::Poll));
    let mut last = Step::Poll;
    for (offset, value) in events {
        last = k.on_poll(PollEvent::Record(RawRecord {
            partition: 0,
            offset,
            key: None,
            value,
            timestamp: RecordTimestamp::NotAvailable,
        }));
    }
    let out = match last {
        Step::Batch(v) => v,
        _ => panic!("the batch did not end at the watermark"),
    };
    assert_eq!(out.len(), 3);
    assert_eq!(out[0].message, PERSON_JSON);
    assert!(out[0].decoding_error.is_none());
    assert_eq!(out[1].message, "\u{FFFD}\u{FFFD}");
    assert!(out[1].decoding_error.as_deref().unwrap_or("").starts_with("Protobuf decode error: "));
    assert_eq!(out[2].message, "");
    assert!(out[2].decoding_error.is_none());
}

#[test]
fn varint_is_read_up_to_ten_bytes() {
    assert_eq!(parse_varint(&[0x00], 0), Some((1, 0)));
    assert_eq!(parse_varint(&[0x7F, 0xFF], 0), Some((1, 127)));
    assert_eq!(parse_varint(&[0xAC, 0x02], 0), Some((2, 300)));
    assert_eq!(parse_varint(&[0x01, 0xAC, 0x02], 1), Some((2, 300)));
    assert_eq!(parse_varint(&[0x80], 0), None);
    assert_eq!(parse_varint(&[], 0), None);
    assert_eq!(parse_varint(&[0x01], 1), None);
    assert_eq!(parse_varint(&[0x01], 5), None);
    let max = [0xFF, 0xFF, 0xFF, 0xFF, 0xFF, 0xFF, 0xFF, 0xFF, 0xFF, 0x01];
    assert_eq!(parse_varint(&max, 0), Some((10, u64::MAX)));
    let wide = [0xFF, 0xFF, 0xFF, 0xFF, 0xFF, 0xFF, 0xFF, 0xFF, 0xFF, 0x7F];
    assert_eq!(parse_varint(&wide, 0), Some((10, u64::MAX)));
    let long = [0x80, 0x80, 0x80, 0x80, 0x80, 0x80, 0x80, 0x80, 0x80, 0x80, 0x01];
    assert_eq!(parse_varint(&long, 0), None);
    assert_eq!(skip_n_varints(&[0x01, 0x80, 0x01, 0x05], 0, 2), Some(3));
    assert_eq!(skip_n_varints(&[0x01, 0x80, 0x01, 0x05], 0, 3), Some(4));
    assert_eq!(skip_n_varints(&[0x01, 0x80, 0x01, 0x05], 0, 4), None);
    assert_eq!(skip_n_varints(&[0x01, 0x80], 0, 0), Some(0));
}

#[test]
fn ranges_are_listed_in_order_and_once() {
    assert_eq!(candidate_views(&[]), vec![(0, 0)]);
    assert_eq!(candidate_views(&[0x0A, 0x01, 0x41]), vec![(0, 3)]);
    // A length prefix of two with two bytes behind it.
    assert_eq!(candidate_views(&[0x02, 0x08, 0x01]), vec![(0, 3), (1, 3)]);
    // A length prefix that states more than there is.
    assert_eq!(candidate_views(&[0x05, 0x08, 0x01]), vec![(0, 3)]);
    // A gRPC frame of three bytes, with one byte left over.
    assert_eq!(
        candidate_views(&[0x01, 0x00, 0x00, 0x00, 0x03, 0x08, 0x01, 0x10, 0xFF]),
        vec![(0, 9), (5, 8), (1, 2)]
    );
    // A gRPC frame that states more than there is; its flag is no length prefix either.
    assert_eq!(candidate_views(&[0x02, 0x00, 0x00, 0x00, 0x00, 0x08]), vec![(0, 6), (1, 3)]);
    // A registry header: the rest, the rest behind one and two varints, and the frame
    // that the header also spells. The counted list leads to the end and adds nothing.
    assert_eq!(
        candidate_views(&[0x00, 0x00, 0x00, 0x00, 0x02, 0x01, 0x02, 0x03]),
        vec![(0, 8), (5, 8), (6, 8), (7, 8), (5, 7)]
    );
    // A counted list of two indices behind the header.
    assert_eq!(
        candidate_views(&[0x00, 0x00, 0x00, 0x01, 0x00, 0x02, 0x05, 0x06, 0x0A, 0x00]),
        vec![(0, 10), (5, 10), (6, 10), (7, 10), (8, 10), (9, 10)]
    );
}

fn message_field(name: &str, number: i32, label: Label, held: &str) -> FieldDescriptorProto {
    let mut f = field(name, number, Type::TYPE_MESSAGE);
    f.set_label(label);
    f.set_type_name(held.to_string());
    f
}

fn entry(name: &str, key: Type, value: Type) -> DescriptorProto {
    let mut e = DescriptorProto::new();
    e.set_name(name.to_string());
    e.field.push(field("key", 1, key));
    e.field.push(field("value", 2, value));
    e.options.mut_or_insert_default().set_map_entry(true);
    e
}

/// `Book` holds a map keyed by strings, another `Book` and an `Atlas`; `Atlas` holds a map
/// keyed by doubles; `Shelf` holds an `Atlas`.
fn library_file() -> FileDescriptor {
    let mut book = DescriptorProto::new();
    book.set_name("Book".to_string());
    book.nested_type.push(entry("PagesEntry", Type::TYPE_STRING, Type::TYPE_INT32));
    book.field.push(message_field("pages", 1, Label::LABEL_REPEATED, ".library.Book.PagesEntry"));
    book.field.push(message_field("next", 2, Label::LABEL_OPTIONAL, ".library.Book"));
    book.field.push(field("title", 3, Type::TYPE_STRING));
    let mut atlas = DescriptorProto::new();
    atlas.set_name("Atlas".to_string());
    atlas.nested_type.push(entry("HeightsEntry", Type::TYPE_DOUBLE, Type::TYPE_STRING));
    atlas.field.push(message_field(
        "heights",
        1,
        Label::LABEL_REPEATED,
        ".library.Atlas.HeightsEntry",
    ));
    let mut shelf = DescriptorProto::new();
    shelf.set_name("Shelf".to_string());
    shelf.field.push(field("label", 1, Type::TYPE_STRING));
    shelf.field.push(message_field("atlas", 2, Label::LABEL_OPTIONAL, ".library.Atlas"));
    let mut file = FileDescriptorProto::new();
    file.set_name("library.proto".to_string());
    file.set_package("library".to_string());
    file.set_syntax("proto3".to_string());
    file.message_type.push(book);
    file.message_type.push(atlas);
    file.message_type.push(shelf);
    FileDescriptor::new_dynamic(file, &[]).expect("the library schema links")
}

#[test]
fn message_with_a_map_and_itself_inside_decodes() {
    let decoder = ProtoDecoder::new(vec![library_file()], Some("library.Book".to_string()));
    let inner = vec![0x1A, 0x01, 0x42];
    let mut bytes = vec![0x0A, 0x05, 0x0A, 0x01, 0x61, 0x10, 0x01, 0x12, 0x03];
    bytes.extend(inner);
    bytes.extend(vec![0x1A, 0x01, 0x41]);
    assert_eq!(
        decoder.decode(&bytes),
        Ok("{\"next\":{\"title\":\"B\"},\"pages\":{\"a\":1},\"title\":\"A\"}".to_string())
    );
}

#[test]
fn entry_of_a_map_is_refused_as_message_type() {
    let decoder =
        ProtoDecoder::new(vec![library_file()], Some("library.Book.PagesEntry".to_string()));
    assert_eq!(decoder.try_decode(&[0x0A, 0x01, 0x61, 0x10, 0x01]), None);
    let (text, error) = decoder.render(&[0x41]);
    assert_eq!(text, "A");
    assert_eq!(
        error,
        Some(
            "Protobuf decode error: Failed to decode protobuf payload: unsupported message type .library.Book.PagesEntry"
                .to_string()
        )
    );
}

#[test]
fn map_keyed_by_a_double_is_refused() {
    let atlas = ProtoDecoder::new(vec![library_file()], Some(".library.Atlas".to_string()));
    assert_eq!(atlas.try_decode(&[0x0A, 0x00]), None);
    let shelf = ProtoDecoder::new(vec![library_file()], Some("library.Shelf".to_string()));
    assert_eq!(shelf.try_decode(&[0x0A, 0x01, 0x41]), None);
    let (text, error) = shelf.render(&[0x0A, 0x01, 0x41]);
    assert_eq!(text, "\n\u{1}A");
    assert_eq!(
        error,
        Some(
            "Protobuf decode error: Failed to decode protobuf payload: unsupported message type .library.Shelf"
                .to_string()
        )
    );
}

#[test]
fn readable_message_types_are_decoded_when_tried() {
    let person = person_decoder();
    assert_eq!(person.try_decode(&person_bytes()), Some(Ok(PERSON_JSON.to_string())));
    let nobody = ProtoDecoder::new(vec![person_file()], Some("example.Nobody".to_string()));
    assert_eq!(
        nobody.try_decode(&person_bytes()),
        Some(Err("Message type not found in descriptors: .example.Nobody".to_string()))
    );
    let unselected = ProtoDecoder::new(vec![person_file()], None);
    assert!(matches!(unselected.try_decode(&[]), Some(Err(_))));
    let book = ProtoDecoder::new(vec![library_file()], Some("library.Book".to_string()));
    assert_eq!(
        book.try_decode(&[0x1A, 0x01, 0x41]),
        Some(Ok("{\"title\":\"A\"}".to_string()))
    );
}
