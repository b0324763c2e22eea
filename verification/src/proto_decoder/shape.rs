use protobuf::reflect::{FieldDescriptor, MessageDescriptor, RuntimeType};
use vstd::prelude::*;

verus! {

#[verifier::external_type_specification]
#[verifier::external_body]
pub struct ExFieldDescriptor(FieldDescriptor);

#[verifier::external_type_specification]
#[verifier::external_body]
pub struct ExRuntimeType(RuntimeType);

/// What kind of value a field, or the key of a map, holds.
pub enum TypeKind {
    I32,
    I64,
    U32,
    U64,
    F32,
    F64,
    Bool,
    Text,
    Bytes,
    Enumeration,
    Message(MessageDescriptor),
}

/// How many message types a survey looks at before it gives up: as many as a list can hold,
/// so that no schema that fits in memory is given up on.
pub const SURVEY_LIMIT: usize = usize::MAX;

/// The message type is the entry of a map.
pub uninterp spec fn is_map_entry(md: MessageDescriptor) -> bool;

/// The fields of a message type, in the order of its declaration.
pub uninterp spec fn fields_of(md: MessageDescriptor) -> Seq<FieldDescriptor>;

/// The type of the keys of a field that is a map; `None` for any other field.
pub uninterp spec fn key_type_of(field: FieldDescriptor) -> Option<RuntimeType>;

/// The type of what a field holds: of its value, of each of its elements where it repeats,
/// of each of its values where it is a map.
pub uninterp spec fn element_type_of(field: FieldDescriptor) -> RuntimeType;

/// The kind of a type.
pub uninterp spec fn kind_of(t: RuntimeType) -> TypeKind;

/// Calls `MessageDescriptor::is_map_entry`.
#[verifier::external_body]
fn map_entry(md: &MessageDescriptor) -> (r: bool)
    ensures
        r == is_map_entry(*md),
{
    md.is_map_entry()
}

/// Calls `MessageDescriptor::fields` and collects what it yields.
#[verifier::external_body]
fn message_fields(md: &MessageDescriptor) -> (r: Vec<FieldDescriptor>)
    ensures
        r@ == fields_of(*md),
{
    md.fields().collect()
}

/// Calls `FieldDescriptor::runtime_field_type` and picks the type of the keys of a map.
#[verifier::external_body]
fn key_type(field: &FieldDescriptor) -> (r: Option<RuntimeType>)
    ensures
        r == key_type_of(*field),
{
    match field.runtime_field_type() {
        protobuf::reflect::RuntimeFieldType::Map(key, _) => Some(key),
        _ => None,
    }
}

/// Calls `FieldDescriptor::runtime_field_type` and picks the type of what the field holds.
#[verifier::external_body]
fn element_type(field: &FieldDescriptor) -> (r: RuntimeType)
    ensures
        r == element_type_of(*field),
{
    match field.runtime_field_type() {
        protobuf::reflect::RuntimeFieldType::Singular(t) => t,
        protobuf::reflect::RuntimeFieldType::Repeated(t) => t,
        protobuf::reflect::RuntimeFieldType::Map(_, value) => value,
    }
}

/// Tells the variants of `RuntimeType` apart.
#[verifier::external_body]
fn type_kind(t: &RuntimeType) -> (r: TypeKind)
    ensures
        r == kind_of(*t),
{
    match t {
        RuntimeType::I32 => TypeKind::I32,
        RuntimeType::I64 => TypeKind::I64,
        RuntimeType::U32 => TypeKind::U32,
        RuntimeType::U64 => TypeKind::U64,
        RuntimeType::F32 => TypeKind::F32,
        RuntimeType::F64 => TypeKind::F64,
        RuntimeType::Bool => TypeKind::Bool,
        RuntimeType::String => TypeKind::Text,
        RuntimeType::VecU8 => TypeKind::Bytes,
        RuntimeType::Enum(_) => TypeKind::Enumeration,
        RuntimeType::Message(m) => TypeKind::Message(m.clone()),
    }
}

/// Compares two message types with `==`. Trusted: they compare equal exactly when they are
/// the same message type of the same file.
#[verifier::external_body]
fn same_message(a: &MessageDescriptor, b: &MessageDescriptor) -> (r: bool)
    ensures
        r == (*a == *b),
{
    a == b
}

/// Calls `MessageDescriptor::clone`.
#[verifier::external_body]
fn copy_of(md: &MessageDescriptor) -> (r: MessageDescriptor)
    ensures
        r == *md,
{
    md.clone()
}

/// Values of this kind can be the keys of a map that is read at run time: integers of 32
/// or 64 bits, `bool` and strings.
pub open spec fn keys_a_map(kind: TypeKind) -> bool {
    kind is U32 || kind is I32 || kind is U64 || kind is I64 || kind is Bool || kind is Text
}

/// The field is no map, or a map with keys of a kind that can key one.
pub open spec fn field_fits(field: FieldDescriptor) -> bool {
    match key_type_of(field) {
        Some(key) => keys_a_map(kind_of(key)),
        None => true,
    }
}

/// The fields from `from` on fit.
pub open spec fn fields_fit(fields: Seq<FieldDescriptor>, from: int) -> bool
    decreases fields.len() - from,
{
    from >= fields.len() || (field_fits(fields[from]) && fields_fit(fields, from + 1))
}

/// The message type can be read: it is no entry of a map, and each of its fields fits.
pub open spec fn message_fits(md: MessageDescriptor) -> bool {
    !is_map_entry(md) && fields_fit(fields_of(md), 0)
}

/// The message type that a field holds, if it holds one.
pub open spec fn nested_of(field: FieldDescriptor) -> Option<MessageDescriptor> {
    match kind_of(element_type_of(field)) {
        TypeKind::Message(m) => Some(m),
        _ => None,
    }
}

/// The list `seen` with the message types that the fields from `from` on hold and that it
/// does not hold yet, in the order of the fields.
pub open spec fn noted(seen: Seq<MessageDescriptor>, fields: Seq<FieldDescriptor>, from: int) -> Seq<
    MessageDescriptor,
>
    decreases fields.len() - from,
{
    if from >= fields.len() {
        seen
    } else {
        match nested_of(fields[from]) {
            Some(m) => if seen.contains(m) {
                noted(seen, fields, from + 1)
            } else {
                noted(seen.push(m), fields, from + 1)
            },
            None => noted(seen, fields, from + 1),
        }
    }
}

/// The survey of the message types in `seen` from place `at` on, and of those that they
/// lead to, finds that each can be read, and looks at no more than `fuel` of them.
pub open spec fn surveyed(seen: Seq<MessageDescriptor>, at: int, fuel: nat) -> bool
    decreases fuel,
{
    if at < 0 || at >= seen.len() {
        true
    } else if fuel == 0 {
        false
    } else {
        message_fits(seen[at]) && surveyed(
            noted(seen, fields_of(seen[at]), 0),
            at + 1,
            (fuel - 1) as nat,
        )
    }
}

/// A payload can be read as this message type without stopping the program: the message
/// type, and every message type that its fields lead to, is no entry of a map and keys its
/// maps by integers, `bool` or strings.
pub open spec fn can_be_read(md: MessageDescriptor) -> bool {
    surveyed(seq![md], 0, SURVEY_LIMIT as nat)
}

/// Whether the list holds the message type.
fn holds(seen: &Vec<MessageDescriptor>, md: &MessageDescriptor) -> (r: bool)
    ensures
        r == seen@.contains(*md),
{
    let mut i: usize = 0;
    while i < seen.len()
        invariant
            i <= seen.len(),
            forall|j: int| 0 <= j < i ==> seen@[j] != *md,
        decreases seen.len() - i,
    {
        if same_message(&seen[i], md) {
            return true;
        }
        i += 1;
    }
    false
}

/// Whether the message type is no entry of a map and each of its fields fits.
fn fits(md: &MessageDescriptor, fields: &Vec<FieldDescriptor>) -> (r: bool)
    requires
        fields@ == fields_of(*md),
    ensures
        r == message_fits(*md),
{
    if map_entry(md) {
        return false;
    }
    let mut i: usize = 0;
    while i < fields.len()
        invariant
            i <= fields.len(),
            fields@ == fields_of(*md),
            !is_map_entry(*md),
            fields_fit(fields@, 0) == fields_fit(fields@, i as int),
        decreases fields.len() - i,
    {
        match key_type(&fields[i]) {
            Some(key) => {
                let fit = match type_kind(&key) {
                    TypeKind::U32 => true,
                    TypeKind::I32 => true,
                    TypeKind::U64 => true,
                    TypeKind::I64 => true,
                    TypeKind::Bool => true,
                    TypeKind::Text => true,
                    _ => false,
                };
                assert(fit == keys_a_map(kind_of(key)));
                if !fit {
                    assert(!field_fits(fields@[i as int]));
                    assert(!fields_fit(fields@, i as int));
                    return false;
                }
            },
            None => {},
        }
        i += 1;
    }
    true
}

/// Adds to `seen` the message types that the fields hold and that it does not hold yet.
fn note(seen: &mut Vec<MessageDescriptor>, fields: &Vec<FieldDescriptor>)
    ensures
        final(seen)@ == noted(old(seen)@, fields@, 0),
{
    let mut i: usize = 0;
    while i < fields.len()
        invariant
            i <= fields.len(),
            noted(old(seen)@, fields@, 0) == noted(seen@, fields@, i as int),
        decreases fields.len() - i,
    {
        let held = element_type(&fields[i]);
        match type_kind(&held) {
            TypeKind::Message(m) => {
                if !holds(seen, &m) {
                    seen.push(m);
                }
            },
            _ => {},
        }
        i += 1;
    }
}

/// Surveys the message type and those that its fields lead to, and says whether a payload
/// can be read as this message type without stopping the program.
pub fn survey(md: &MessageDescriptor) -> (r: bool)
    ensures
        r == can_be_read(*md),
{
    let mut seen: Vec<MessageDescriptor> = Vec::new();
    seen.push(copy_of(md));
    assert(seen@ =~= seq![*md]);
    let mut at: usize = 0;
    let mut fuel: usize = SURVEY_LIMIT;
    while at < seen.len()
        invariant
            can_be_read(*md) == surveyed(seen@, at as int, fuel as nat),
        decreases fuel,
    {
        if fuel == 0 {
            return false;
        }
        let fields = message_fields(&seen[at]);
        if !fits(&seen[at], &fields) {
            return false;
        }
        note(&mut seen, &fields);
        at += 1;
        fuel -= 1;
    }
    true
}

/// A field of message type `a` holds message type `b`.
pub open spec fn leads_to(a: MessageDescriptor, b: MessageDescriptor) -> bool {
    exists|i: int| 0 <= i < fields_of(a).len() && nested_of(#[trigger] fields_of(a)[i]) == Some(b)
}

/// Message type `b` is found from `a` through `steps` fields, one inside the other.
pub open spec fn reaches(a: MessageDescriptor, b: MessageDescriptor, steps: nat) -> bool
    decreases steps,
{
    if steps == 0 {
        a == b
    } else {
        exists|mid: MessageDescriptor|
            reaches(a, mid, (steps - 1) as nat) && #[trigger] leads_to(mid, b)
    }
}

/// The list as a survey leaves it: with every message type that those from place `at` on
/// lead to, as far as `fuel` lasts.
pub open spec fn settled(seen: Seq<MessageDescriptor>, at: int, fuel: nat) -> Seq<
    MessageDescriptor,
>
    decreases fuel,
{
    if at < 0 || at >= seen.len() || fuel == 0 {
        seen
    } else {
        settled(noted(seen, fields_of(seen[at]), 0), at + 1, (fuel - 1) as nat)
    }
}

/// The message types before place `at` can be read, and the list holds every message type
/// that one of them leads to.
pub open spec fn closed_before(seen: Seq<MessageDescriptor>, at: int) -> bool {
    forall|i: int|
        0 <= i < at && i < seen.len() ==> message_fits(#[trigger] seen[i]) && forall|
            b: MessageDescriptor,
        | #[trigger] leads_to(seen[i], b) ==> seen.contains(b)
}

/// The list `a` begins the list `b`.
pub open spec fn begins(a: Seq<MessageDescriptor>, b: Seq<MessageDescriptor>) -> bool {
    a.len() <= b.len() && forall|i: int| 0 <= i < a.len() ==> #[trigger] b[i] == a[i]
}

/// Noting the message types of fields keeps the list as its beginning and adds every
/// message type that one of the fields holds.
pub proof fn lemma_noted(seen: Seq<MessageDescriptor>, fields: Seq<FieldDescriptor>, from: int)
    requires
        0 <= from,
    ensures
        begins(seen, noted(seen, fields, from)),
        forall|k: int|
            from <= k < fields.len() && nested_of(#[trigger] fields[k]) is Some ==> noted(
                seen,
                fields,
                from,
            ).contains(nested_of(fields[k])->0),
    decreases fields.len() - from,
{
    if from < fields.len() {
        let r = noted(seen, fields, from);
        match nested_of(fields[from]) {
            Some(m) => {
                if seen.contains(m) {
                    lemma_noted(seen, fields, from + 1);
                    let j = choose|j: int| 0 <= j < seen.len() && seen[j] == m;
                    assert(r[j] == m);
                } else {
                    let more = seen.push(m);
                    lemma_noted(more, fields, from + 1);
                    assert(more[seen.len() as int] == m);
                    assert(r[seen.len() as int] == m);
                    assert forall|i: int| 0 <= i < seen.len() implies #[trigger] r[i]
                        == seen[i] by {
                        assert(more[i] == seen[i]);
                    }
                }
            },
            None => {
                lemma_noted(seen, fields, from + 1);
            },
        }
    }
}

/// A survey that finds nothing amiss leaves a list that begins as it began, in which every
/// message type can be read, and which holds every message type that one of its own leads
/// to.
pub proof fn lemma_survey_closes(seen: Seq<MessageDescriptor>, at: int, fuel: nat)
    requires
        0 <= at <= seen.len(),
        closed_before(seen, at),
        surveyed(seen, at, fuel),
    ensures
        begins(seen, settled(seen, at, fuel)),
        closed_before(settled(seen, at, fuel), settled(seen, at, fuel).len() as int),
    decreases fuel,
{
    if at < seen.len() {
        let fields = fields_of(seen[at]);
        let more = noted(seen, fields, 0);
        lemma_noted(seen, fields, 0);
        assert(closed_before(more, at + 1)) by {
            assert forall|i: int| 0 <= i < at + 1 && i < more.len() implies message_fits(
                #[trigger] more[i],
            ) && forall|b: MessageDescriptor| #[trigger]
                leads_to(more[i], b) ==> more.contains(b) by {
                assert(more[i] == seen[i]);
                assert forall|b: MessageDescriptor| #[trigger]
                    leads_to(more[i], b) implies more.contains(b) by {
                    if i < at {
                        assert(message_fits(seen[i]));
                        assert(seen.contains(b));
                        let j = choose|j: int| 0 <= j < seen.len() && seen[j] == b;
                        assert(more[j] == b);
                    } else {
                        let k = choose|k: int|
                            0 <= k < fields_of(seen[at]).len() && nested_of(
                                #[trigger] fields_of(seen[at])[k],
                            ) == Some(b);
                        assert(nested_of(fields[k]) is Some);
                    }
                }
                if i < at {
                    assert(message_fits(seen[i]));
                }
            }
        }
        lemma_survey_closes(more, at + 1, (fuel - 1) as nat);
        let end = settled(seen, at, fuel);
        assert forall|i: int| 0 <= i < seen.len() implies #[trigger] end[i] == seen[i] by {
            assert(more[i] == seen[i]);
        }
    }
}

/// A list that holds `a`, and every message type that one of its own leads to, holds every
/// message type that is found from `a`.
pub proof fn lemma_closed_holds_all(
    seen: Seq<MessageDescriptor>,
    a: MessageDescriptor,
    b: MessageDescriptor,
    steps: nat,
)
    requires
        closed_before(seen, seen.len() as int),
        seen.contains(a),
        reaches(a, b, steps),
    ensures
        seen.contains(b),
    decreases steps,
{
    if steps > 0 {
        let mid = choose|mid: MessageDescriptor|
            reaches(a, mid, (steps - 1) as nat) && #[trigger] leads_to(mid, b);
        lemma_closed_holds_all(seen, a, mid, (steps - 1) as nat);
        let i = choose|i: int| 0 <= i < seen.len() && seen[i] == mid;
        assert(message_fits(seen[i]));
    }
}

/// A survey that finds nothing amiss has looked at every message type that a payload can
/// hold: each message type that is found from the surveyed one, through any number of
/// fields, is no entry of a map and keys its maps by integers, `bool` or strings.
pub proof fn law_survey_covers(md: MessageDescriptor, m: MessageDescriptor, steps: nat)
    requires
        can_be_read(md),
        reaches(md, m, steps),
    ensures
        message_fits(m),
{
    let first = seq![md];
    lemma_survey_closes(first, 0, SURVEY_LIMIT as nat);
    let end = settled(first, 0, SURVEY_LIMIT as nat);
    assert(first[0] == md);
    assert(end[0] == md);
    lemma_closed_holds_all(end, md, m, steps);
    let i = choose|i: int| 0 <= i < end.len() && end[i] == m;
    assert(message_fits(end[i]));
}

} // verus!
