use vstd::prelude::*;
use super::decoder::{decoder_for, lossy_text_of, opt_bytes, MessageType};
use super::laws::{engine_wf, law_call_keeps_sound, Input};
use super::reader::laws::{
    flight_wf, lemma_in_plan_same_plan, lemma_message_in_plan, message_in_plan, same_plan,
};
use super::reader::{
    advance, all_done, all_empty, classify, close_partition, deliver_idle, deliver_record,
    every_buffer_empty, every_partition_done, new_flight, note_idle, place, run_batch, slots_of,
    take_in, Batch, Flight, PartitionState, Phase, PollEvent, RawRecord, RecordTimestamp, Slot,
    Verdict, TS_UNAVAILABLE,
};
use super::types::{KafkaConfig, UiMessage};
use crate::proto_decoder::ProtoDecoder;
use crate::text::{
    eq_ignoring_ascii_case, int_text, integer_text, lemma_int_text, lemma_int_text_injective,
    owned, same_ignoring_ascii_case, shows,
};

verus! {

/// Why a call on the reader failed. Each kind has a text for the user.
#[derive(Debug)]
pub enum EngineError {
    /// No reader has been set up.
    NotConfigured,
    /// The settings cannot be used: a partition id that is no number, a missing schema.
    Config(String),
    /// The topic is not in the source's metadata.
    Metadata(String),
    /// The source failed and no progress was possible.
    Source(String),
    /// The reader was used against its protocol.
    Internal(String),
}

impl EngineError {
    /// The text of the error, as a plain value.
    pub open spec fn text(&self) -> Seq<char> {
        match self {
            EngineError::NotConfigured => "Kafka is not configured"@,
            EngineError::Config(s) => s@,
            EngineError::Metadata(s) => s@,
            EngineError::Source(s) => s@,
            EngineError::Internal(s) => s@,
        }
    }

    /// The text shown to the user.
    pub fn message(&self) -> (s: String)
        ensures
            s@ == self.text(),
    {
        match self {
            EngineError::NotConfigured => owned("Kafka is not configured"),
            EngineError::Config(s) => s.clone(),
            EngineError::Metadata(s) => s.clone(),
            EngineError::Source(s) => s.clone(),
            EngineError::Internal(s) => s.clone(),
        }
    }
}

/// What the reader asks of its driver, or hands to it.
#[derive(Debug)]
pub enum Step {
    /// No plan is installed: fetch partitions and watermarks, call `ensure_assigned`, assign
    /// the source, and begin again.
    Assign,
    /// Poll the source once and pass the result to `on_poll`.
    Poll,
    /// The batch is complete.
    Batch(Vec<UiMessage>),
    /// The call failed.
    Failed(EngineError),
}

/// The RFC 3339 text, in UTC, of the instant a number of milliseconds after the Unix epoch;
/// `None` where the calendar cannot represent the instant.
pub uninterp spec fn rfc3339_of_millis(ms: i64) -> Option<Seq<char>>;

/// Calls `chrono::DateTime::<Utc>::from_timestamp_millis` and, on the instant it gives,
/// `to_rfc3339`. Trusted: the text depends on the number of milliseconds alone, and there is
/// none exactly when the number is out of the calendar's range.
#[verifier::external_body]
fn format_millis(ms: i64) -> (r: Option<String>)
    ensures
        match r {
            Some(s) => rfc3339_of_millis(ms) == Some(s@),
            None => rfc3339_of_millis(ms) is None,
        },
{
    chrono::DateTime::<chrono::Utc>::from_timestamp_millis(ms).map(|dt| dt.to_rfc3339())
}

/// The time by which a record is ordered: its milliseconds, or the largest value when it
/// carries none.
pub open spec fn ordering_time(ts: RecordTimestamp) -> i64 {
    match ts {
        RecordTimestamp::NotAvailable => TS_UNAVAILABLE,
        RecordTimestamp::CreateTime(ms) => ms,
        RecordTimestamp::LogAppendTime(ms) => ms,
    }
}

/// The time shown for a record: RFC 3339 in UTC, or empty when it carries none or the
/// calendar cannot represent it.
pub open spec fn timestamp_text(ts: RecordTimestamp) -> Seq<char> {
    match ts {
        RecordTimestamp::NotAvailable => Seq::<char>::empty(),
        RecordTimestamp::CreateTime(ms) => match rfc3339_of_millis(ms) {
            Some(t) => t,
            None => Seq::<char>::empty(),
        },
        RecordTimestamp::LogAppendTime(ms) => match rfc3339_of_millis(ms) {
            Some(t) => t,
            None => Seq::<char>::empty(),
        },
    }
}

/// Ordering time and shown time of a record.
pub fn render_timestamp(ts: RecordTimestamp) -> (r: (i64, String))
    ensures
        r.0 == ordering_time(ts),
        r.1@ == timestamp_text(ts),
{
    match ts {
        RecordTimestamp::NotAvailable => (TS_UNAVAILABLE, String::new()),
        RecordTimestamp::CreateTime(ms) => match format_millis(ms) {
            Some(t) => (ms, t),
            None => (ms, String::new()),
        },
        RecordTimestamp::LogAppendTime(ms) => match format_millis(ms) {
            Some(t) => (ms, t),
            None => (ms, String::new()),
        },
    }
}

/// The id of a record: partition and offset in decimal, joined by `-`.
pub open spec fn record_id(partition: i32, offset: i64) -> Seq<char> {
    int_text(partition as int) + seq!['-'] + int_text(offset as int)
}

/// Records with the same id are in the same partition at the same offset.
pub proof fn law_record_id_tells_the_record(part_a: i32, off_a: i64, part_b: i32, off_b: i64)
    requires
        record_id(part_a, off_a) == record_id(part_b, off_b),
    ensures
        part_a == part_b,
        off_a == off_b,
{
    let a1 = int_text(part_a as int);
    let a2 = int_text(part_b as int);
    let b1 = int_text(off_a as int);
    let b2 = int_text(off_b as int);
    let id1 = record_id(part_a, off_a);
    let id2 = record_id(part_b, off_b);
    lemma_int_text(part_a as int);
    lemma_int_text(part_b as int);
    lemma_int_text(off_a as int);
    lemma_int_text(off_b as int);
    if a1.len() < a2.len() {
        assert(id1[a1.len() as int] == '-');
        assert(id2[a1.len() as int] == a2[a1.len() as int]);
    }
    if a2.len() < a1.len() {
        assert(id2[a2.len() as int] == '-');
        assert(id1[a2.len() as int] == a1[a2.len() as int]);
    }
    assert(a1 =~= a2) by {
        assert forall|i: int| 0 <= i < a1.len() implies a1[i] == a2[i] by {
            assert(id1[i] == a1[i]);
            assert(id2[i] == a2[i]);
        }
    }
    assert(b1 =~= b2) by {
        assert(id1.len() == id2.len());
        assert forall|i: int| 0 <= i < b1.len() implies b1[i] == b2[i] by {
            assert(id1[a1.len() + 1 + i] == b1[i]);
            assert(id2[a2.len() + 1 + i] == b2[i]);
        }
    }
    lemma_int_text_injective(part_a as int, part_b as int);
    lemma_int_text_injective(off_a as int, off_b as int);
}

/// Builds the id of a record.
pub fn make_record_id(partition: i32, offset: i64) -> (id: String)
    ensures
        id@ == record_id(partition, offset),
{
    proof {
        reveal_strlit("-");
    }
    let mut id = integer_text(partition as i64);
    id.append("-");
    let tail = integer_text(offset);
    id.append(tail.as_str());
    assert("-"@ =~= seq!['-']);
    id
}

/// The bytes of an optional byte vector, as a plain value.
pub open spec fn opt_vec(b: Option<Vec<u8>>) -> Option<Seq<u8>> {
    match b {
        Some(v) => Some(v@),
        None => None,
    }
}

/// The text of an optional string, as a plain value.
pub open spec fn opt_text(s: Option<String>) -> Option<Seq<char>> {
    match s {
        Some(v) => Some(v@),
        None => None,
    }
}

/// Whether a start preference asks for the newest records: `newest` in any case of letters.
pub open spec fn wants_newest(start_from: Option<String>) -> bool {
    match start_from {
        Some(s) => eq_ignoring_ascii_case(s@, "newest"@),
        None => false,
    }
}

/// The reader: settings, the installed plan with its buffers, and the batch in progress.
///
/// The reader performs no input or output. A driver polls the source for it: it begins a
/// batch with `consume_next`, and while the answer is `Step::Poll` it polls once and hands
/// the result to `on_poll`.
#[derive(Debug)]
pub struct Kafka {
    pub config: KafkaConfig,
    /// A plan is installed.
    pub assigned: bool,
    /// The partitions of the plan, each with its window, its buffer and whether it is done.
    pub partitions: Vec<PartitionState>,
    /// The batch that waits for a poll, if any.
    pub batch: Option<Batch>,
    /// Decoder for protobuf payloads, present when the settings ask for them.
    pub proto_decoder: Option<ProtoDecoder>,
}

/// Mathematical content of the reader's reading state.
pub struct Engine {
    pub assigned: bool,
    pub newest: bool,
    pub slots: Seq<Slot>,
    pub flight: Option<Flight>,
}

impl View for Kafka {
    type V = Engine;

    open spec fn view(&self) -> Engine {
        Engine {
            assigned: self.assigned,
            newest: wants_newest(self.config.start_from),
            slots: slots_of(self.partitions@),
            flight: match self.batch {
                Some(b) => Some(b@),
                None => None,
            },
        }
    }
}

/// The plan and batch after the driver has handed over `event`, whose record, if it lies in
/// the window, was built into `item`.
pub open spec fn delivered(slots: Seq<Slot>, f: Flight, event: PollEvent, item: (i64, UiMessage)) -> (
    Seq<Slot>,
    Flight,
) {
    match event {
        PollEvent::Idle => (slots, deliver_idle(f, None)),
        PollEvent::Failed(e) => (slots, deliver_idle(f, Some(e))),
        PollEvent::Record(r) => deliver_record(slots, f, r.partition, r.offset, item),
    }
}

/// The reading state after `consume_next` with `limit`, and the batch as it ended, if it
/// ended at once. Without a plan, or with a batch in progress, nothing changes. When every
/// partition is done and every buffer is empty, the batch ends empty without a poll.
pub open spec fn begun(e: Engine, limit: usize) -> (Engine, Option<Flight>) {
    if !e.assigned || e.flight is Some {
        (e, None)
    } else if all_done(e.slots) && all_empty(e.slots) {
        (e, Some(new_flight(e.slots, e.newest, limit)))
    } else {
        let a = advance(e.slots, new_flight(e.slots, e.newest, limit));
        if a.finished {
            (Engine { slots: a.slots, ..e }, Some(a.flight))
        } else {
            (Engine { slots: a.slots, flight: Some(a.flight), ..e }, None)
        }
    }
}

/// The reading state after `on_poll` with `event`, whose record, if taken in, was built into
/// `item`, and the batch as it ended, if it ended. Without a batch in progress nothing
/// changes.
pub open spec fn stepped(e: Engine, event: PollEvent, item: (i64, UiMessage)) -> (
    Engine,
    Option<Flight>,
) {
    match e.flight {
        None => (e, None),
        Some(f) => {
            let d = delivered(e.slots, f, event, item);
            let a = advance(d.0, d.1);
            if a.finished {
                (Engine { slots: a.slots, flight: None, ..e }, Some(a.flight))
            } else {
                (Engine { slots: a.slots, flight: Some(a.flight), ..e }, None)
            }
        },
    }
}

/// The messages of a list of buffered records.
pub open spec fn messages_of(items: Seq<(i64, UiMessage)>) -> Seq<UiMessage> {
    items.map_values(|it: (i64, UiMessage)| it.1)
}

/// `step` is what a batch that ended as `f` returns: the error of the source if nothing was
/// handed out and every poll that was made failed, else the messages handed out, in order.
pub open spec fn concludes(f: Flight, step: Step) -> bool {
    if f.out.len() == 0 && f.polled && f.only_failures {
        match step {
            Step::Failed(EngineError::Source(e)) => match f.last_failure {
                Some(x) => e == x,
                None => e@ == Seq::<char>::empty(),
            },
            _ => false,
        }
    } else {
        match step {
            Step::Batch(v) => v@ == messages_of(f.out),
            _ => false,
        }
    }
}

/// The messages are at most `limit`, each in the window of a partition of the plan.
pub open spec fn within_plan(slots: Seq<Slot>, messages: Seq<UiMessage>, limit: usize) -> bool {
    &&& messages.len() <= limit
    &&& forall|k: int| 0 <= k < messages.len() ==> message_in_plan(slots, #[trigger] messages[k])
}

/// The messages of a sound batch lie within the plan.
pub proof fn lemma_batch_within_plan(before: Seq<Slot>, slots: Seq<Slot>, f: Flight)
    requires
        same_plan(before, slots),
        flight_wf(slots, f),
    ensures
        within_plan(before, messages_of(f.out), f.limit),
{
    assert(same_plan(slots, before)) by {
        assert forall|j: int| 0 <= j < slots.len() implies (#[trigger] slots[j]).partition
            == before[j].partition && slots[j].start == before[j].start && slots[j].end
            == before[j].end by {
            assert(before[j].partition == slots[j].partition);
        }
    }
    let messages = messages_of(f.out);
    assert forall|k: int| 0 <= k < messages.len() implies message_in_plan(
        before,
        #[trigger] messages[k],
    ) by {
        lemma_in_plan_same_plan(slots, before, f.out[k]);
        lemma_message_in_plan(before, f.out[k]);
    }
}

/// Ends a batch.
pub fn conclude(batch: Batch) -> (step: Step)
    ensures
        concludes(batch@, step),
{
    if batch.out.len() == 0 && batch.polled && batch.only_failures {
        match batch.last_failure {
            Some(e) => Step::Failed(EngineError::Source(e)),
            None => Step::Failed(EngineError::Source(String::new())),
        }
    } else {
        let ghost items = batch.out@;
        let mut out = batch.out;
        let mut newest_first: Vec<UiMessage> = Vec::new();
        while out.len() > 0
            invariant
                newest_first@.len() + out@.len() == items.len(),
                forall|k: int| 0 <= k < out@.len() ==> out@[k] == items[k],
                forall|k: int|
                    0 <= k < newest_first@.len() ==> newest_first@[k] == items[items.len() - 1 - k].1,
            decreases out@.len(),
        {
            match out.pop() {
                Some(item) => {
                    newest_first.push(item.1);
                },
                None => {},
            }
        }
        let mut messages: Vec<UiMessage> = Vec::new();
        while newest_first.len() > 0
            invariant
                messages@.len() + newest_first@.len() == items.len(),
                forall|k: int| 0 <= k < messages@.len() ==> messages@[k] == items[k].1,
                forall|k: int|
                    0 <= k < newest_first@.len() ==> newest_first@[k] == items[items.len() - 1 - k].1,
            decreases newest_first@.len(),
        {
            match newest_first.pop() {
                Some(m) => {
                    messages.push(m);
                },
                None => {},
            }
        }
        assert(messages@ =~= messages_of(items));
        Step::Batch(messages)
    }
}

impl Kafka {
    /// Whether `message` and `error` are a decoding of the payload `value` under the
    /// reader's settings. Text and JSON payloads are shown as lossy UTF-8 and never fail; so
    /// is a protobuf payload when there is no decoder or no payload.
    pub open spec fn decodes(
        &self,
        value: Option<Seq<u8>>,
        message: Seq<char>,
        error: Option<Seq<char>>,
    ) -> bool {
        if self.config.message_type is Protobuf && self.proto_decoder is Some && value is Some {
            self.proto_decoder->0.renders(value->0, message, error)
        } else {
            shows(value, message) && error is None
        }
    }

    /// Whether `after` and `step` are what `on_poll` leaves and answers on `event`, whose
    /// record, if it was taken in, was built into `item`.
    pub open spec fn answers(
        &self,
        event: PollEvent,
        item: (i64, UiMessage),
        after: Engine,
        step: Step,
    ) -> bool {
        &&& match event {
            PollEvent::Record(r) => self.batch is Some && classify(
                self@.slots,
                r.partition,
                r.offset,
            ) is InWindow ==> self.describes(r, item),
            _ => true,
        }
        &&& after == stepped(self@, event, item).0
        &&& match stepped(self@, event, item).1 {
            Some(f) => concludes(f, step),
            None => if self.batch is None {
                step matches Step::Failed(EngineError::Internal(e)) && e@
                    == "no batch is in progress"@
            } else {
                step is Poll
            },
        }
    }

    /// Whether `item` is what the reader builds from the record `r`.
    pub open spec fn describes(&self, r: RawRecord, item: (i64, UiMessage)) -> bool {
        &&& item.0 == ordering_time(r.timestamp)
        &&& item.1.id@ == record_id(r.partition, r.offset)
        &&& item.1.partition == r.partition
        &&& item.1.offset == r.offset
        &&& shows(opt_vec(r.key), item.1.key@)
        &&& item.1.timestamp@ == timestamp_text(r.timestamp)
        &&& self.decodes(opt_vec(r.value), item.1.message@, opt_text(item.1.decoding_error))
    }

    /// A reader for `config` without a plan. Protobuf payloads need a schema path in the
    /// settings and a decoder built from it.
    pub fn new(config: KafkaConfig, proto_decoder: Option<ProtoDecoder>) -> (r: Result<
        Kafka,
        EngineError,
    >)
        ensures
            match r {
                Ok(k) => {
                    &&& k.config == config
                    &&& k.proto_decoder == proto_decoder
                    &&& !k.assigned
                    &&& k.partitions@.len() == 0
                    &&& k.batch is None
                    &&& engine_wf(k@)
                    &&& !(config.message_type is Protobuf) || (config.proto_schema_path is Some
                        && proto_decoder is Some)
                },
                Err(e) => {
                    &&& config.message_type is Protobuf
                    &&& config.proto_schema_path is None || proto_decoder is None
                    &&& e is Config
                    &&& e.text() == (if config.proto_schema_path is None {
                        "Protobuf message_type selected but no proto_schema_path provided"@
                    } else {
                        "Failed to initialize proto decoder: no descriptors were loaded"@
                    })
                },
            },
    {
        match config.message_type {
            MessageType::Protobuf => {
                if config.proto_schema_path.is_none() {
                    return Err(
                        EngineError::Config(
                            owned(
                                "Protobuf message_type selected but no proto_schema_path provided",
                            ),
                        ),
                    );
                }
                if proto_decoder.is_none() {
                    return Err(
                        EngineError::Config(
                            owned("Failed to initialize proto decoder: no descriptors were loaded"),
                        ),
                    );
                }
            },
            _ => {},
        }
        Ok(Kafka { config, assigned: false, partitions: Vec::new(), batch: None, proto_decoder })
    }

    /// Decodes key and payload by the configured format. The key is always shown as lossy
    /// UTF-8. A protobuf payload that cannot be decoded is shown as lossy UTF-8 with the
    /// reason attached.
    pub fn decode(&self, key: Option<&[u8]>, payload: Option<&[u8]>) -> (r: (
        String,
        String,
        Option<String>,
    ))
        ensures
            shows(opt_bytes(key), r.0@),
            self.decodes(opt_bytes(payload), r.1@, opt_text(r.2)),
    {
        let key_s = lossy_text_of(key);
        match self.config.message_type {
            MessageType::Protobuf => {
                match (&self.proto_decoder, payload) {
                    (Some(pd), Some(bytes)) => {
                        let (text, error) = pd.render(bytes);
                        return (key_s, text, error);
                    },
                    _ => {},
                }
            },
            _ => {},
        }
        let dec = decoder_for(&self.config.message_type);
        let (_k, v) = dec.decode(None, payload);
        (key_s, v, None)
    }

    /// Builds the buffered form of a record: its ordering time and its message.
    pub fn build_item(&self, record: &RawRecord) -> (item: (i64, UiMessage))
        ensures
            self.describes(*record, item),
    {
        let key: Option<&[u8]> = match &record.key {
            Some(v) => Some(v.as_slice()),
            None => None,
        };
        let value: Option<&[u8]> = match &record.value {
            Some(v) => Some(v.as_slice()),
            None => None,
        };
        let (key_s, message, decoding_error) = self.decode(key, value);
        let (ts_ms, timestamp) = render_timestamp(record.timestamp);
        (
            ts_ms,
            UiMessage {
                id: make_record_id(record.partition, record.offset),
                partition: record.partition,
                key: key_s,
                offset: record.offset,
                message,
                timestamp,
                decoding_error,
            },
        )
    }

    /// Whether the settings ask for the newest records first.
    pub fn reads_newest(&self) -> (r: bool)
        ensures
            r == wants_newest(self.config.start_from),
    {
        match &self.config.start_from {
            Some(s) => same_ignoring_ascii_case(s.as_str(), "newest"),
            None => false,
        }
    }

    /// Begins a batch of at most `limit` records and runs it up to its first poll or to its
    /// end.
    ///
    /// Without a plan the answer is `Step::Assign`. While a batch waits for a poll, a second
    /// one is refused. When every partition is done and every buffer is empty, the batch is
    /// empty and no poll is asked for.
    pub fn consume_next(&mut self, limit: usize) -> (step: Step)
        ensures
            final(self).config == old(self).config,
            final(self).proto_decoder == old(self).proto_decoder,
            final(self)@ == begun(old(self)@, limit).0,
            begun(old(self)@, limit).1 matches Some(f) ==> concludes(f, step),
            begun(old(self)@, limit).1 is None ==> (if !old(self).assigned {
                step is Assign
            } else if old(self).batch is Some {
                step matches Step::Failed(EngineError::Internal(e)) && e@
                    == "a batch is already in progress"@
            } else {
                step is Poll
            }),
            engine_wf(old(self)@) ==> engine_wf(final(self)@) && same_plan(
                old(self)@.slots,
                final(self)@.slots,
            ),
            engine_wf(old(self)@) ==> (step matches Step::Batch(v) ==> within_plan(
                old(self)@.slots,
                v@,
                limit,
            )),
    {
        proof {
            if engine_wf(self@) {
                law_call_keeps_sound(self@, Input::Begin(limit));
                match begun(self@, limit).1 {
                    Some(f) => {
                        lemma_batch_within_plan(self@.slots, begun(self@, limit).0.slots, f);
                    },
                    None => {},
                }
            }
        }
        if !self.assigned {
            return Step::Assign;
        }
        if self.batch.is_some() {
            return Step::Failed(EngineError::Internal(owned("a batch is already in progress")));
        }
        if every_partition_done(&self.partitions) && every_buffer_empty(&self.partitions) {
            let empty: Vec<UiMessage> = Vec::new();
            assert(empty@ =~= messages_of(new_flight(self@.slots, self@.newest, limit).out));
            return Step::Batch(empty);
        }
        let phase = if self.reads_newest() {
            Phase::Drain
        } else if self.partitions.len() <= 1 {
            Phase::Sequential
        } else {
            Phase::Fill
        };
        let mut batch = Batch {
            limit,
            out: Vec::new(),
            idle: 0,
            phase,
            polled: false,
            only_failures: true,
            last_failure: None,
        };
        assert(batch@ == new_flight(old(self)@.slots, old(self)@.newest, limit));
        let finished = run_batch(&mut self.partitions, &mut batch);
        if finished {
            conclude(batch)
        } else {
            self.batch = Some(batch);
            Step::Poll
        }
    }

    /// Takes the result of one poll into the batch in progress and runs the batch up to its
    /// next poll or to its end.
    ///
    /// An idle or failed poll counts against the idle budget of the phase the batch is in. A
    /// record outside its partition's window is not taken in; one at or past the end of the
    /// window marks the partition done, and so does the last record of the window once it is
    /// taken in. Without a batch in progress the call is refused and changes nothing.
    pub fn on_poll(&mut self, event: PollEvent) -> (step: Step)
        ensures
            final(self).config == old(self).config,
            final(self).proto_decoder == old(self).proto_decoder,
            (exists|item: (i64, UiMessage)| #[trigger]
                old(self).answers(event, item, final(self)@, step)),
            engine_wf(old(self)@) ==> engine_wf(final(self)@) && same_plan(
                old(self)@.slots,
                final(self)@.slots,
            ),
            engine_wf(old(self)@) ==> (step matches Step::Batch(v) ==> old(self).batch is Some
                && within_plan(old(self)@.slots, v@, old(self).batch->0.limit)),
    {
        let mut batch = match self.batch.take() {
            Some(b) => b,
            None => {
                assert(self@ == old(self)@);
                let step = Step::Failed(EngineError::Internal(owned("no batch is in progress")));
                assert(old(self).answers(event, arbitrary(), self@, step));
                assert(same_plan(self@.slots, self@.slots));
                return step;
            },
        };
        let ghost flight0 = batch@;
        let ghost slots0 = slots_of(self.partitions@);
        let ghost witness: (i64, UiMessage);
        match event {
            PollEvent::Idle => {
                note_idle(&mut batch, None);
                proof {
                    witness = arbitrary();
                }
            },
            PollEvent::Failed(e) => {
                note_idle(&mut batch, Some(e));
                proof {
                    witness = arbitrary();
                }
            },
            PollEvent::Record(r) => {
                batch.polled = true;
                batch.only_failures = false;
                match place(&self.partitions, r.partition, r.offset) {
                    Verdict::Foreign => {
                        proof {
                            witness = arbitrary();
                        }
                    },
                    Verdict::Below(_) => {
                        proof {
                            witness = arbitrary();
                        }
                    },
                    Verdict::Beyond(i) => {
                        close_partition(&mut self.partitions, i);
                        proof {
                            witness = arbitrary();
                        }
                    },
                    Verdict::InWindow(i) => {
                        let item = self.build_item(&r);
                        proof {
                            witness = item;
                        }
                        take_in(&mut self.partitions, &mut batch, i, r.offset, item);
                    },
                }
            },
        }
        assert((slots_of(self.partitions@), batch@) == delivered(slots0, flight0, event, witness));
        let finished = run_batch(&mut self.partitions, &mut batch);
        let step = if finished {
            conclude(batch)
        } else {
            self.batch = Some(batch);
            Step::Poll
        };
        assert(old(self).answers(event, witness, self@, step));
        proof {
            if engine_wf(old(self)@) {
                law_call_keeps_sound(old(self)@, Input::Polled(event, witness));
                match stepped(old(self)@, event, witness).1 {
                    Some(f) => {
                        lemma_batch_within_plan(old(self)@.slots, self@.slots, f);
                    },
                    None => {},
                }
            }
        }
        step
    }
}

} // verus!
