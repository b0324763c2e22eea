pub mod metadata;
pub mod shape;
pub mod views;

use protobuf::reflect::{FileDescriptor, MessageDescriptor};
use vstd::prelude::*;
use crate::text::{has_prefix, joined, lossy_string, owned, result_text, utf8_lossy_text};
use crate::utils::{normalize_full_name, normalized_name};
use shape::{can_be_read, survey};
use views::{candidate_ranges, candidate_views, ranges_fit, ViewRange};

pub use metadata::ProtoMetadata;

verus! {

#[verifier::external_type_specification]
#[verifier::external_body]
pub struct ExFileDescriptor(FileDescriptor);

#[verifier::external_type_specification]
#[verifier::external_body]
pub struct ExMessageDescriptor(MessageDescriptor);

/// Why a range of the payload did not decode.
#[derive(Debug)]
pub enum ViewFailure {
    /// The bytes are no message of the selected type.
    Parse(String),
    /// The message could not be written as JSON.
    Print(String),
}

/// The package that a file descriptor declares.
pub uninterp spec fn package_of(fd: FileDescriptor) -> Seq<char>;

/// The compact form of a JSON text: parsed and written again without white space; `None`
/// where the text is no JSON.
pub uninterp spec fn compact_json_text(text: Seq<char>) -> Option<Seq<char>>;

/// Calls `FileDescriptor::proto` and `FileDescriptorProto::package`. Trusted: the result is
/// the package of the file.
#[verifier::external_body]
fn file_package(fd: &FileDescriptor) -> (r: String)
    ensures
        r@ == package_of(*fd),
{
    fd.proto().package().to_string()
}

/// The message type that a file declares under this full name, written with a leading dot;
/// `None` where it declares none.
pub uninterp spec fn message_named(fd: FileDescriptor, full_name: Seq<char>) -> Option<
    MessageDescriptor,
>;

/// The package of the file begins with a dot.
pub open spec fn has_dotted_package(fd: FileDescriptor) -> bool {
    package_of(fd).len() > 0 && package_of(fd)[0] == '.'
}

/// Calls `FileDescriptor::message_by_full_name`, which looks in this file only. It panics
/// on a name without a leading dot and on a package with one, so both are excluded.
/// Trusted: what it finds depends on the file and the name alone.
#[verifier::external_body]
fn message_in_file(fd: &FileDescriptor, full_name: &str) -> (r: Option<MessageDescriptor>)
    requires
        full_name@.len() > 0 && full_name@[0] == '.',
        !has_dotted_package(*fd),
    ensures
        r == message_named(*fd, full_name@),
{
    fd.message_by_full_name(full_name)
}

/// Why the bytes are no message of the type; `None` where they are one.
pub uninterp spec fn parse_failure(md: MessageDescriptor, bytes: Seq<u8>) -> Option<Seq<char>>;

/// Whether the message of the type that the bytes spell can be written as JSON.
pub uninterp spec fn prints_as_json(md: MessageDescriptor, bytes: Seq<u8>) -> bool;

/// Whether `text` is a JSON text of the message of the type that the bytes spell. A message
/// with a map field has several: its entries are written in an order that changes from run
/// to run.
pub uninterp spec fn is_rendering(md: MessageDescriptor, bytes: Seq<u8>, text: Seq<char>) -> bool;

/// The bytes decode: they are a message of the type, and it can be written as JSON.
pub open spec fn decodes_as(md: MessageDescriptor, bytes: Seq<u8>) -> bool {
    parse_failure(md, bytes) is None && prints_as_json(md, bytes)
}

/// Calls `MessageDescriptor::parse_from_bytes` and, on the message it gives,
/// `protobuf_json_mapping::print_to_string`, and says which of the two failed. The reader
/// stops the program on a message type that is the entry of a map or holds a map with keys
/// that cannot key one, so such message types are excluded. Trusted: whether the bytes
/// parse, with what error they do not, and whether the message can be written depend on the
/// type and the bytes alone. Of the text only this is claimed, that it is one of the JSON
/// texts of the message; of the error of writing, nothing.
#[verifier::external_body]
fn parse_view(md: &MessageDescriptor, bytes: &[u8]) -> (r: Result<String, ViewFailure>)
    requires
        can_be_read(*md),
    ensures
        match r {
            Ok(text) => decodes_as(*md, bytes@) && is_rendering(*md, bytes@, text@),
            Err(ViewFailure::Parse(e)) => parse_failure(*md, bytes@) == Some(e@),
            Err(ViewFailure::Print(_)) => parse_failure(*md, bytes@) is None && !prints_as_json(
                *md,
                bytes@,
            ),
        },
{
    match md.parse_from_bytes(bytes) {
        Ok(msg) => match protobuf_json_mapping::print_to_string(&*msg) {
            Ok(json) => Ok(json),
            Err(e) => Err(ViewFailure::Print(e.to_string())),
        },
        Err(e) => Err(ViewFailure::Parse(e.to_string())),
    }
}

/// Calls `serde_json::from_str` for a `Value` and `serde_json::to_string` on it. Trusted:
/// the result is the compact form of the text, and there is none where the text is no JSON.
#[verifier::external_body]
fn compact_json(text: &str) -> (r: Option<String>)
    ensures
        match r {
            Some(c) => compact_json_text(text@) == Some(c@),
            None => compact_json_text(text@) is None,
        },
{
    serde_json::from_str::<serde_json::Value>(text).ok().and_then(|v| serde_json::to_string(&v).ok())
}

/// A JSON text in compact form; a text that is no JSON stays as it is.
pub open spec fn normalized_json(text: Seq<char>) -> Seq<char> {
    match compact_json_text(text) {
        Some(c) => c,
        None => text,
    }
}

/// Brings a JSON text into compact form.
pub fn normalize_json(text: String) -> (r: String)
    ensures
        r@ == normalized_json(text@),
{
    match compact_json(text.as_str()) {
        Some(c) => c,
        None => text,
    }
}

/// A full name with a leading dot, as descriptors are searched by.
pub open spec fn dotted_name(name: Seq<char>) -> Seq<char> {
    if name.len() > 0 && name[0] == '.' {
        name
    } else {
        seq!['.'] + name
    }
}

/// Puts a dot in front of a full name that has none.
pub fn dotted(name: &str) -> (r: String)
    ensures
        r@ == dotted_name(name@),
{
    proof {
        reveal_strlit(".");
    }
    if name.unicode_len() > 0 && name.get_char(0) == '.' {
        owned(name)
    } else {
        let r = joined(".", name);
        assert("."@ =~= seq!['.']);
        r
    }
}

/// The message type of the full name `full_name`, written with a leading dot, in the first
/// file at or after `from` that declares it; files whose package begins with a dot are
/// passed over.
pub open spec fn found_from(files: Seq<FileDescriptor>, full_name: Seq<char>, from: int) -> Option<
    MessageDescriptor,
>
    decreases files.len() - from,
{
    if from < 0 || from >= files.len() {
        None
    } else if !has_dotted_package(files[from]) && message_named(files[from], full_name) is Some {
        message_named(files[from], full_name)
    } else {
        found_from(files, full_name, from + 1)
    }
}

/// The message type of the full name `name`, written with or without a leading dot, as the
/// files declare it.
pub open spec fn resolved(files: Seq<FileDescriptor>, name: Seq<char>) -> Option<
    MessageDescriptor,
> {
    found_from(files, dotted_name(name), 0)
}

/// Some file of the list, whose package does not begin with a dot, declares a message type
/// of the full name `name`.
pub open spec fn resolvable(files: Seq<FileDescriptor>, name: Seq<char>) -> bool {
    resolved(files, name) is Some
}

/// The payload with the tag of a first length-delimited field in front.
pub open spec fn repaired_bytes(payload: Seq<u8>) -> Seq<u8> {
    seq![0x0Au8] + payload
}

/// Puts the tag of a first length-delimited field in front of the payload.
pub fn repaired(payload: &[u8]) -> (r: Vec<u8>)
    ensures
        r@ == repaired_bytes(payload@),
{
    let mut out: Vec<u8> = Vec::new();
    out.push(0x0A);
    let mut i: usize = 0;
    while i < payload.len()
        invariant
            i <= payload.len(),
            out@ == seq![0x0Au8] + payload@.subrange(0, i as int),
        decreases payload.len() - i,
    {
        out.push(payload[i]);
        assert(out@ =~= seq![0x0Au8] + payload@.subrange(0, i + 1));
        i += 1;
    }
    assert(payload@.subrange(0, payload.len() as int) =~= payload@);
    out
}

/// What decoding answers when no message type was selected.
pub open spec fn no_message_text() -> Seq<char> {
    "No protobuf message is selected. Select a specific message type to enable decoding."@
}

/// What decoding answers when the descriptors do not hold the selected message type.
pub open spec fn not_found_text(name: Seq<char>) -> Seq<char> {
    "Message type not found in descriptors: "@ + dotted_name(name)
}

/// The reason that is shown when the selected message type is one that cannot be read: the
/// entry of a map, or a type that leads to one or to a map with keys that cannot key it.
pub open spec fn unreadable_text(name: Seq<char>) -> Seq<char> {
    "Failed to decode protobuf payload: unsupported message type "@ + dotted_name(name)
}

/// What decoding answers when the repaired payload is no message of the type, for the
/// reason `why`.
pub open spec fn parse_failure_text(name: Seq<char>, why: Seq<char>) -> Seq<char> {
    "Failed to parse protobuf payload as ."@ + name + " (repaired): "@ + why
}

/// What decoding answers when the message of the repaired payload cannot be written, for
/// the reason `why`.
pub open spec fn print_failure_text(why: Seq<char>) -> Seq<char> {
    "Failed to serialize protobuf JSON: "@ + why
}

/// What decoding answers when the last attempt, on the repaired payload, failed.
pub open spec fn failure_text(name: Seq<char>, failure: ViewFailure) -> Seq<char> {
    match failure {
        ViewFailure::Print(e) => print_failure_text(e@),
        ViewFailure::Parse(e) => parse_failure_text(name, e@),
    }
}

/// The bytes of a range of the payload.
pub open spec fn range_bytes(payload: Seq<u8>, range: ViewRange) -> Seq<u8> {
    payload.subrange(range.0 as int, range.1 as int)
}

/// The first range at or after place `from` of the list whose bytes decode.
pub open spec fn first_decoding(
    md: MessageDescriptor,
    payload: Seq<u8>,
    ranges: Seq<ViewRange>,
    from: int,
) -> Option<int>
    decreases ranges.len() - from,
{
    if from < 0 || from >= ranges.len() {
        None
    } else if decodes_as(md, range_bytes(payload, ranges[from])) {
        Some(from)
    } else {
        first_decoding(md, payload, ranges, from + 1)
    }
}

/// `json` is the compact form of a JSON text of the message that the bytes spell.
pub open spec fn json_of(md: MessageDescriptor, bytes: Seq<u8>, json: Seq<char>) -> bool {
    exists|raw: Seq<char>| #[trigger] is_rendering(md, bytes, raw) && json == normalized_json(raw)
}

/// Whether `r` is the answer of decoding `payload` as the message type `md`, selected under
/// the name `name`.
///
/// The ranges of `candidate_ranges` are tried in order, and the first whose bytes decode
/// gives the answer: the compact JSON of its message. When none decodes, the payload is
/// tried with the tag of a first length-delimited field in front: it gives the compact JSON
/// of its message, or the answer says why it is no message or cannot be written.
pub open spec fn decoded_as(
    md: MessageDescriptor,
    name: Seq<char>,
    payload: Seq<u8>,
    r: Result<Seq<char>, Seq<char>>,
) -> bool {
    let ranges = candidate_ranges(payload);
    let fixed = repaired_bytes(payload);
    match first_decoding(md, payload, ranges, 0) {
        Some(k) => r is Ok && json_of(md, range_bytes(payload, ranges[k]), r->Ok_0),
        None => match parse_failure(md, fixed) {
            Some(why) => r == Err::<Seq<char>, Seq<char>>(parse_failure_text(name, why)),
            None => if prints_as_json(md, fixed) {
                r is Ok && json_of(md, fixed, r->Ok_0)
            } else {
                r is Err && has_prefix(r->Err_0, "Failed to serialize protobuf JSON: "@)
            },
        },
    }
}

/// Where the range at place `k` decodes and none between `from` and `k` does, it is the
/// first that decodes.
pub proof fn lemma_first_decoding(
    md: MessageDescriptor,
    payload: Seq<u8>,
    ranges: Seq<ViewRange>,
    from: int,
    k: int,
)
    requires
        0 <= from <= k < ranges.len(),
        decodes_as(md, range_bytes(payload, ranges[k])),
        forall|j: int| from <= j < k ==> !decodes_as(md, range_bytes(payload, #[trigger] ranges[j])),
    ensures
        first_decoding(md, payload, ranges, from) == Some(k),
    decreases k - from,
{
    if from < k {
        assert(!decodes_as(md, range_bytes(payload, ranges[from])));
        lemma_first_decoding(md, payload, ranges, from + 1, k);
    }
}

/// The answer of decoding comes from the first range that decodes: where a range of the
/// payload decodes and none that is tried before it does, the answer is the compact JSON of
/// the message in that range.
pub proof fn law_first_range_that_decodes_answers(
    md: MessageDescriptor,
    name: Seq<char>,
    payload: Seq<u8>,
    k: int,
    r: Result<Seq<char>, Seq<char>>,
)
    requires
        decoded_as(md, name, payload, r),
        0 <= k < candidate_ranges(payload).len(),
        decodes_as(md, range_bytes(payload, candidate_ranges(payload)[k])),
        forall|j: int|
            0 <= j < k ==> !decodes_as(
                md,
                range_bytes(payload, #[trigger] candidate_ranges(payload)[j]),
            ),
    ensures
        r is Ok,
        json_of(md, range_bytes(payload, candidate_ranges(payload)[k]), r->Ok_0),
{
    lemma_first_decoding(md, payload, candidate_ranges(payload), 0, k);
}

/// What `first_decoding` finds: the range at the place it gives decodes and none before it
/// does; where it gives none, no range decodes.
pub proof fn lemma_first_decoding_found(
    md: MessageDescriptor,
    payload: Seq<u8>,
    ranges: Seq<ViewRange>,
    from: int,
)
    requires
        0 <= from,
    ensures
        match first_decoding(md, payload, ranges, from) {
            Some(k) => from <= k < ranges.len() && decodes_as(md, range_bytes(payload, ranges[k]))
                && forall|j: int|
                from <= j < k ==> !decodes_as(md, range_bytes(payload, #[trigger] ranges[j])),
            None => forall|j: int|
                from <= j < ranges.len() ==> !decodes_as(
                    md,
                    range_bytes(payload, #[trigger] ranges[j]),
                ),
        },
    decreases ranges.len() - from,
{
    if from < ranges.len() && !decodes_as(md, range_bytes(payload, ranges[from])) {
        lemma_first_decoding_found(md, payload, ranges, from + 1);
    }
}

/// Where one range that is tried decodes and no other does, the answer is the compact
/// JSON of the message in that range: a message inside an envelope is found whenever the
/// payload does not decode in another way.
pub proof fn law_only_range_that_decodes_answers(
    md: MessageDescriptor,
    name: Seq<char>,
    payload: Seq<u8>,
    range: ViewRange,
    r: Result<Seq<char>, Seq<char>>,
)
    requires
        decoded_as(md, name, payload, r),
        candidate_ranges(payload).contains(range),
        decodes_as(md, range_bytes(payload, range)),
        forall|j: int|
            0 <= j < candidate_ranges(payload).len() && #[trigger] candidate_ranges(payload)[j]
                != range ==> !decodes_as(md, range_bytes(payload, candidate_ranges(payload)[j])),
    ensures
        r is Ok,
        json_of(md, range_bytes(payload, range), r->Ok_0),
{
    let ranges = candidate_ranges(payload);
    lemma_first_decoding_found(md, payload, ranges, 0);
    let at = choose|at: int| 0 <= at < ranges.len() && ranges[at] == range;
    match first_decoding(md, payload, ranges, 0) {
        Some(k) => {
            assert(ranges[k] == range);
        },
        None => {
            assert(!decodes_as(md, range_bytes(payload, ranges[at])));
        },
    }
}

/// A payload that is a message of the selected type as it stands decodes as it stands: the
/// answer is the compact JSON of that message, whatever envelope the payload may also
/// spell.
pub proof fn law_plain_payload_answers(
    md: MessageDescriptor,
    name: Seq<char>,
    payload: Seq<u8>,
    r: Result<Seq<char>, Seq<char>>,
)
    requires
        payload.len() <= usize::MAX,
        decoded_as(md, name, payload, r),
        decodes_as(md, payload),
    ensures
        r is Ok,
        json_of(md, payload, r->Ok_0),
{
    views::law_whole_payload_is_first(payload);
    assert(range_bytes(payload, candidate_ranges(payload)[0]) =~= payload);
    law_first_range_that_decodes_answers(md, name, payload, 0, r);
}

/// Where no range of the payload decodes and the payload with the tag of a first
/// length-delimited field in front does not either, decoding fails.
pub proof fn law_nothing_decodes_fails(
    md: MessageDescriptor,
    name: Seq<char>,
    payload: Seq<u8>,
    r: Result<Seq<char>, Seq<char>>,
)
    requires
        decoded_as(md, name, payload, r),
        first_decoding(md, payload, candidate_ranges(payload), 0) is None,
        !decodes_as(md, repaired_bytes(payload)),
    ensures
        r is Err,
{
}

/// What is shown for a payload whose decoding gave `d`: the JSON; or, where decoding
/// failed, the lossy text of the payload with the reason attached.
pub open spec fn rendered(bytes: Seq<u8>, d: Result<Seq<char>, Seq<char>>) -> (
    Seq<char>,
    Option<Seq<char>>,
) {
    match d {
        Ok(json) => (json, None),
        Err(why) => (utf8_lossy_text(bytes), Some("Protobuf decode error: "@ + why)),
    }
}

/// Turns the answer of decoding a payload into what is shown for it.
pub fn render_outcome(bytes: &[u8], d: Result<String, String>) -> (r: (String, Option<String>))
    ensures
        (r.0@, crate::kafka::service::opt_text(r.1)) == rendered(bytes@, result_text(d)),
{
    match d {
        Ok(json) => (json, None),
        Err(why) => {
            let raw = lossy_string(bytes);
            let error = joined("Protobuf decode error: ", why.as_str());
            (raw, Some(error))
        },
    }
}

/// What tells of a failure to parse or to write is never the text for a type that was not
/// found.
pub proof fn lemma_not_found_differs(name: Seq<char>, other: Seq<char>)
    requires
        has_prefix(other, "Failed to "@),
    ensures
        other != not_found_text(name),
{
    reveal_strlit("Failed to ");
    reveal_strlit("Message type not found in descriptors: ");
    assert(other.subrange(0, "Failed to "@.len() as int)[0] == 'F');
    assert(not_found_text(name)[0] == 'M');
}

/// The answer of decoding once every range of the payload has failed, from the outcome of
/// the last attempt, which is made on the repaired payload.
pub open spec fn repaired_outcome(name: Seq<char>, last: Result<String, ViewFailure>) -> Result<
    Seq<char>,
    Seq<char>,
> {
    match last {
        Ok(json) => Ok(normalized_json(json@)),
        Err(failure) => Err(failure_text(name, failure)),
    }
}

/// Turns the outcome of the last attempt into the answer of decoding: the compact JSON if
/// the repaired payload decoded, else why it did not.
pub fn decode_outcome(name: &str, last: Result<String, ViewFailure>) -> (r: Result<String, String>)
    ensures
        result_text(r) == repaired_outcome(name@, last),
{
    match last {
        Ok(json) => Ok(normalize_json(json)),
        Err(ViewFailure::Print(e)) => Err(joined("Failed to serialize protobuf JSON: ", e.as_str())),
        Err(ViewFailure::Parse(e)) => {
            let mut text = joined("Failed to parse protobuf payload as .", name);
            text.append(" (repaired): ");
            text.append(e.as_str());
            Err(text)
        },
    }
}

/// Decoder of protobuf payloads into compact JSON, for one selected message type.
#[derive(Debug)]
pub struct ProtoDecoder {
    /// The linked descriptors of the schema.
    pub files: Vec<FileDescriptor>,
    /// Full name of the message type to decode, without a leading dot.
    pub message_full_name: Option<String>,
}

impl ProtoDecoder {
    /// A decoder over linked descriptors for the message type of the given full name, with
    /// or without a leading dot.
    pub fn new(files: Vec<FileDescriptor>, selected_message: Option<String>) -> (d: ProtoDecoder)
        ensures
            d.files == files,
            match selected_message {
                Some(n) => d.message_full_name matches Some(m) && m@ == normalized_name(n@),
                None => d.message_full_name is None,
            },
    {
        let chosen = match selected_message {
            Some(n) => Some(normalize_full_name(n)),
            None => None,
        };
        ProtoDecoder { files, message_full_name: chosen }
    }

    /// Looks the message type up in each file in turn and takes it from the first file that
    /// declares it. A file whose package begins with a dot holds no message that a full
    /// name could reach, and is passed over.
    fn resolve(&self, name: &str) -> (r: Option<MessageDescriptor>)
        ensures
            r == resolved(self.files@, name@),
    {
        let fq = dotted(name);
        let mut i: usize = 0;
        while i < self.files.len()
            invariant
                i <= self.files.len(),
                fq@ == dotted_name(name@),
                fq@.len() > 0 && fq@[0] == '.',
                resolved(self.files@, name@) == found_from(self.files@, fq@, i as int),
            decreases self.files.len() - i,
        {
            let package = file_package(&self.files[i]);
            let odd: bool = package.as_str().unicode_len() > 0 && package.as_str().get_char(0)
                == '.';
            if !odd {
                match message_in_file(&self.files[i], fq.as_str()) {
                    Some(md) => {
                        return Some(md);
                    },
                    None => {},
                }
            }
            i += 1;
        }
        None
    }

    /// The selected message type, where the files declare it, can be read without stopping
    /// the program.
    pub open spec fn readable(&self) -> bool {
        match self.message_full_name {
            None => true,
            Some(name) => match resolved(self.files@, name@) {
                None => true,
                Some(md) => can_be_read(md),
            },
        }
    }

    /// Whether `r` is the answer of decoding `payload`: without a selected message type the
    /// request to select one; for a message type that no file declares, the error that says
    /// so; else what `decoded_as` says for the message type that the files declare.
    pub open spec fn decoded(&self, payload: Seq<u8>, r: Result<Seq<char>, Seq<char>>) -> bool {
        match self.message_full_name {
            None => r == Err::<Seq<char>, Seq<char>>(no_message_text()),
            Some(name) => match resolved(self.files@, name@) {
                None => r == Err::<Seq<char>, Seq<char>>(not_found_text(name@)),
                Some(md) => decoded_as(md, name@, payload, r),
            },
        }
    }

    /// Whether `r` is an answer of decoding `payload` that says of an unknown message type,
    /// and of no other, that it was not found.
    pub open spec fn answered(&self, payload: Seq<u8>, r: Result<Seq<char>, Seq<char>>) -> bool {
        &&& self.decoded(payload, r)
        &&& self.message_full_name matches Some(n) ==> (!resolvable(self.files@, n@) <==> r
            == Err::<Seq<char>, Seq<char>>(not_found_text(n@)))
    }

    /// Decodes a payload into compact JSON.
    ///
    /// The ranges of `candidate_ranges` are tried in order and the first that decodes as the
    /// selected message type is taken. When none does, the payload is tried once more with
    /// the tag of a first length-delimited field put in front. The error that the message
    /// type was not found is given exactly when no file declares it.
    ///
    /// The selected message type has to be one that can be read; `try_decode` tests this
    /// first.
    pub fn decode(&self, payload: &[u8]) -> (r: Result<String, String>)
        requires
            self.readable(),
        ensures
            self.decoded(payload@, result_text(r)),
            self.message_full_name matches Some(n) ==> (!resolvable(self.files@, n@)
                <==> result_text(r) == Err::<Seq<char>, Seq<char>>(not_found_text(n@))),
    {
        let name = match &self.message_full_name {
            Some(n) => n,
            None => {
                return Err(
                    owned(
                        "No protobuf message is selected. Select a specific message type to enable decoding.",
                    ),
                );
            },
        };
        let views = candidate_views(payload);
        let md = match self.resolve(name.as_str()) {
            Some(md) => md,
            None => {
                let fq = dotted(name.as_str());
                return Err(joined("Message type not found in descriptors: ", fq.as_str()));
            },
        };
        let mut i: usize = 0;
        while i < views.len()
            invariant
                i <= views.len(),
                can_be_read(md),
                ranges_fit(views@, payload.len()),
                views@ == candidate_ranges(payload@),
                self.message_full_name == Some(*name),
                resolved(self.files@, name@) == Some(md),
                first_decoding(md, payload@, views@, 0) == first_decoding(
                    md,
                    payload@,
                    views@,
                    i as int,
                ),
            decreases views.len() - i,
        {
            let (from, to) = views[i];
            match parse_view(&md, &payload[from..to]) {
                Ok(json) => {
                    let ghost raw = json@;
                    let out = normalize_json(json);
                    assert(is_rendering(md, range_bytes(payload@, views@[i as int]), raw));
                    return Ok(out);
                },
                Err(_) => {},
            }
            i += 1;
        }
        let fixed = repaired(payload);
        let last = parse_view(&md, fixed.as_slice());
        let ghost outcome = last;
        let r = decode_outcome(name.as_str(), last);
        proof {
            match outcome {
                Ok(json) => {
                    assert(is_rendering(md, fixed@, json@));
                },
                Err(ViewFailure::Parse(e)) => {
                    reveal_strlit("Failed to ");
                    reveal_strlit("Failed to parse protobuf payload as .");
                    assert(r->Err_0@.subrange(0, "Failed to "@.len() as int) =~= "Failed to "@);
                    lemma_not_found_differs(name@, r->Err_0@);
                },
                Err(ViewFailure::Print(e)) => {
                    let lead = "Failed to serialize protobuf JSON: "@;
                    assert(r->Err_0@.subrange(0, lead.len() as int) =~= lead);
                    reveal_strlit("Failed to ");
                    reveal_strlit("Failed to serialize protobuf JSON: ");
                    assert(r->Err_0@.subrange(0, "Failed to "@.len() as int) =~= "Failed to "@);
                    lemma_not_found_differs(name@, r->Err_0@);
                },
            }
        }
        r
    }

    /// Decodes a payload where the selected message type can be read, and answers `None`
    /// where it cannot: where it is the entry of a map, or leads to one or to a map with
    /// keys that cannot key it.
    pub fn try_decode(&self, payload: &[u8]) -> (r: Option<Result<String, String>>)
        ensures
            r is Some <==> self.readable(),
            r matches Some(d) ==> self.answered(payload@, result_text(d)),
    {
        let fit = match &self.message_full_name {
            Some(name) => match self.resolve(name.as_str()) {
                Some(md) => survey(&md),
                None => true,
            },
            None => true,
        };
        if fit {
            Some(self.decode(payload))
        } else {
            None
        }
    }

    /// Whether `message` and `error` are what is shown for `bytes`: what `rendered` makes of
    /// the answer of decoding them; or, where the selected message type cannot be read, of
    /// the error that says so.
    pub open spec fn renders(
        &self,
        bytes: Seq<u8>,
        message: Seq<char>,
        error: Option<Seq<char>>,
    ) -> bool {
        if self.readable() {
            exists|d: Result<Seq<char>, Seq<char>>| #[trigger]
                self.decoded(bytes, d) && (message, error) == rendered(bytes, d)
        } else {
            (message, error) == rendered(
                bytes,
                Err(unreadable_text(self.message_full_name->0@)),
            )
        }
    }

    /// Decodes a payload for display: the JSON, or the lossy text of the payload together
    /// with the reason why it did not decode.
    pub fn render(&self, bytes: &[u8]) -> (r: (String, Option<String>))
        ensures
            self.renders(bytes@, r.0@, crate::kafka::service::opt_text(r.1)),
    {
        match self.try_decode(bytes) {
            Some(d) => {
                let ghost answer = result_text(d);
                let r = render_outcome(bytes, d);
                assert(self.decoded(bytes@, answer));
                r
            },
            None => {
                let fq = match &self.message_full_name {
                    Some(name) => dotted(name.as_str()),
                    None => owned("."),
                };
                let why = joined(
                    "Failed to decode protobuf payload: unsupported message type ",
                    fq.as_str(),
                );
                render_outcome(bytes, Err(why))
            },
        }
    }
}

} // verus!
