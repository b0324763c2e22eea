pub mod laws;
pub mod merge;
pub mod merge_newest;
pub mod merge_oldest;
pub mod sequential;

use std::collections::VecDeque;
use vstd::prelude::*;
use super::types::UiMessage;

pub use merge::consume_merge;
pub use merge_newest::consume_merge_newest;
pub use merge_oldest::consume_merge_oldest;
pub use sequential::consume_sequential;

verus! {

/// Idle polls in a row after which a sequential batch gives up, and idle polls in all after
/// which the merge of the oldest records gives up.
pub const IDLE_LIMIT_BATCH: u32 = 20;

/// Idle polls after which the merge of the oldest records stops waiting for every head.
pub const IDLE_LIMIT_FILL: u32 = 20;

/// Idle polls after which the merge stops waiting for the partition it has just emptied.
pub const IDLE_LIMIT_REFILL: u32 = 5;

/// Idle polls after which the merge of the newest records stops draining the window.
pub const IDLE_LIMIT_DRAIN: u32 = 40;

/// Ordering value of a record whose time is not available: it sorts last.
pub const TS_UNAVAILABLE: i64 = i64::MAX;

/// Time attached to a record by the source.
#[derive(Debug, Clone, Copy)]
pub enum RecordTimestamp {
    NotAvailable,
    CreateTime(i64),
    LogAppendTime(i64),
}

/// One record as the source hands it over.
#[derive(Debug, Clone)]
pub struct RawRecord {
    pub partition: i32,
    pub offset: i64,
    pub key: Option<Vec<u8>>,
    pub value: Option<Vec<u8>>,
    pub timestamp: RecordTimestamp,
}

/// What one poll of the source gave.
#[derive(Debug, Clone)]
pub enum PollEvent {
    /// Nothing arrived within the timeout.
    Idle,
    /// The source reported an error; it counts as an idle poll.
    Failed(String),
    Record(RawRecord),
}

/// Reading state of one partition of the plan.
#[derive(Debug)]
pub struct PartitionState {
    pub partition: i32,
    /// First offset of the window.
    pub start: i64,
    /// High watermark when the plan was made; the window ends before it.
    pub end: i64,
    /// No further record of this partition will be taken in.
    pub done: bool,
    /// Records taken in and not yet handed out, with their ordering time, oldest first.
    pub buffer: VecDeque<(i64, UiMessage)>,
}

/// Mathematical content of a `PartitionState`.
pub struct Slot {
    pub partition: i32,
    pub start: i64,
    pub end: i64,
    pub done: bool,
    pub buffer: Seq<(i64, UiMessage)>,
}

impl View for PartitionState {
    type V = Slot;

    open spec fn view(&self) -> Slot {
        Slot {
            partition: self.partition,
            start: self.start,
            end: self.end,
            done: self.done,
            buffer: self.buffer@,
        }
    }
}

/// The slots of a list of partition states.
pub open spec fn slots_of(parts: Seq<PartitionState>) -> Seq<Slot> {
    parts.map_values(|p: PartitionState| p@)
}

/// Where a batch stands when it asks for the next poll.
#[derive(Debug, Clone, Copy)]
pub enum Phase {
    /// Records go straight to the output.
    Sequential,
    /// Waiting until every partition that is not done has a buffered head.
    Fill,
    /// Handing out the smallest head; polls only when every buffer is empty.
    Merge,
    /// Waiting for the partition `target`, whose buffer the merge has just emptied.
    Refill { target: usize, local_idle: u32 },
    /// Buffering the whole window before the newest records are handed out.
    Drain,
}

/// A batch in progress.
#[derive(Debug)]
pub struct Batch {
    pub limit: usize,
    /// Records handed out so far, each with its ordering time.
    pub out: Vec<(i64, UiMessage)>,
    /// Idle polls counted against the batch.
    pub idle: u32,
    pub phase: Phase,
    /// At least one poll was made for this batch.
    pub polled: bool,
    /// Every poll made so far failed.
    pub only_failures: bool,
    /// What the source said when it last failed.
    pub last_failure: Option<String>,
}

/// Mathematical content of a `Batch`.
pub struct Flight {
    pub limit: usize,
    pub out: Seq<(i64, UiMessage)>,
    pub idle: u32,
    pub phase: Phase,
    pub polled: bool,
    pub only_failures: bool,
    pub last_failure: Option<String>,
}

impl View for Batch {
    type V = Flight;

    open spec fn view(&self) -> Flight {
        Flight {
            limit: self.limit,
            out: self.out@,
            idle: self.idle,
            phase: self.phase,
            polled: self.polled,
            only_failures: self.only_failures,
            last_failure: self.last_failure,
        }
    }
}

/// Result of running a batch up to its next poll or to its end.
pub struct Advance {
    pub slots: Seq<Slot>,
    pub flight: Flight,
    /// The batch is complete: `flight.out` is what it returns.
    pub finished: bool,
}

/// Ordering key of a buffered record: time, then partition, then offset.
pub open spec fn key_of(item: (i64, UiMessage)) -> (int, int, int) {
    (item.0 as int, item.1.partition as int, item.1.offset as int)
}

/// Lexicographic `<` on ordering keys.
pub open spec fn key_lt(a: (int, int, int), b: (int, int, int)) -> bool {
    a.0 < b.0 || (a.0 == b.0 && (a.1 < b.1 || (a.1 == b.1 && a.2 < b.2)))
}

/// Lexicographic `<=` on ordering keys.
pub open spec fn key_le(a: (int, int, int), b: (int, int, int)) -> bool {
    a == b || key_lt(a, b)
}

/// Every partition of the plan is done.
pub open spec fn all_done(slots: Seq<Slot>) -> bool {
    forall|i: int| 0 <= i < slots.len() ==> (#[trigger] slots[i]).done
}

/// No partition holds a buffered record.
pub open spec fn all_empty(slots: Seq<Slot>) -> bool {
    forall|i: int| 0 <= i < slots.len() ==> (#[trigger] slots[i]).buffer.len() == 0
}

/// Some partition that is not done has nothing buffered.
pub open spec fn needs_head(slots: Seq<Slot>) -> bool {
    exists|i: int| 0 <= i < slots.len() && !(#[trigger] slots[i]).done && slots[i].buffer.len() == 0
}

/// Index of the first slot at or after `from` that belongs to `partition`.
pub open spec fn find_from(slots: Seq<Slot>, partition: i32, from: int) -> Option<int>
    decreases slots.len() - from,
{
    if from < 0 || from >= slots.len() {
        None
    } else if slots[from].partition == partition {
        Some(from)
    } else {
        find_from(slots, partition, from + 1)
    }
}

/// Index of the slot of `partition` in the plan.
pub open spec fn find_slot(slots: Seq<Slot>, partition: i32) -> Option<int> {
    find_from(slots, partition, 0)
}

/// How a polled record relates to the plan.
#[derive(Debug, Clone, Copy)]
pub enum Verdict {
    /// Its partition is not in the plan.
    Foreign,
    /// Its offset lies before the window of slot `0`.
    Below(usize),
    /// Its offset lies at or after the end of the window of slot `0`.
    Beyond(usize),
    /// It lies in the window of slot `0`.
    InWindow(usize),
}

/// Verdict on a record of `partition` at `offset`.
pub open spec fn classify(slots: Seq<Slot>, partition: i32, offset: i64) -> Verdict {
    match find_slot(slots, partition) {
        None => Verdict::Foreign,
        Some(i) => if offset >= slots[i].end {
            Verdict::Beyond(i as usize)
        } else if offset < slots[i].start {
            Verdict::Below(i as usize)
        } else {
            Verdict::InWindow(i as usize)
        },
    }
}

/// Slot `i` marked done.
pub open spec fn mark_done(slots: Seq<Slot>, i: int) -> Seq<Slot> {
    slots.update(i, Slot { done: true, ..slots[i] })
}

/// Slot `i` with `item` appended to its buffer; done if `item` is the last of the window.
pub open spec fn buffer_item(slots: Seq<Slot>, i: int, offset: i64, item: (i64, UiMessage)) -> Seq<
    Slot,
> {
    slots.update(
        i,
        Slot {
            done: slots[i].done || offset >= slots[i].end - 1,
            buffer: slots[i].buffer.push(item),
            ..slots[i]
        },
    )
}

/// Slot `i` done if `offset` is the last of its window; nothing is buffered.
pub open spec fn pass_item(slots: Seq<Slot>, i: int, offset: i64) -> Seq<Slot> {
    slots.update(i, Slot { done: slots[i].done || offset >= slots[i].end - 1, ..slots[i] })
}

/// Slot `i` without the first record of its buffer.
pub open spec fn pop_head(slots: Seq<Slot>, i: int) -> Seq<Slot> {
    slots.update(i, Slot { buffer: slots[i].buffer.drop_first(), ..slots[i] })
}

/// Slot `i` without the last record of its buffer.
pub open spec fn pop_tail(slots: Seq<Slot>, i: int) -> Seq<Slot> {
    slots.update(i, Slot { buffer: slots[i].buffer.drop_last(), ..slots[i] })
}

/// One more idle poll on a counter that stops at its largest value.
pub open spec fn bump(n: u32) -> u32 {
    if n < u32::MAX {
        (n + 1) as u32
    } else {
        n
    }
}

/// The batch after a poll that brought nothing, or failed with `failure`.
pub open spec fn deliver_idle(f: Flight, failure: Option<String>) -> Flight {
    Flight {
        idle: if f.phase is Refill {
            f.idle
        } else {
            bump(f.idle)
        },
        phase: match f.phase {
            Phase::Refill { target, local_idle } => Phase::Refill {
                target,
                local_idle: bump(local_idle),
            },
            other => other,
        },
        polled: true,
        only_failures: f.only_failures && failure is Some,
        last_failure: match failure {
            Some(e) => Some(e),
            None => f.last_failure,
        },
        ..f
    }
}

/// Plan and batch after a poll that brought a record of `partition` at `offset`, built into
/// `item`. A record outside the window is not taken in; one at or past the end marks its
/// partition done, and so does the last one of the window. A record that a sequential batch
/// takes in goes to its output and ends the run of idle polls: the count begins anew.
pub open spec fn deliver_record(
    slots: Seq<Slot>,
    f: Flight,
    partition: i32,
    offset: i64,
    item: (i64, UiMessage),
) -> (Seq<Slot>, Flight) {
    let seen = Flight { polled: true, only_failures: false, ..f };
    match find_slot(slots, partition) {
        None => (slots, seen),
        Some(i) => if offset >= slots[i].end {
            (mark_done(slots, i), seen)
        } else if offset < slots[i].start {
            (slots, seen)
        } else if f.phase is Sequential {
            (pass_item(slots, i, offset), Flight { out: seen.out.push(item), idle: 0, ..seen })
        } else {
            (buffer_item(slots, i, offset, item), seen)
        },
    }
}

/// Rank of a phase in the order in which a batch moves through them without polling.
pub open spec fn phase_rank(p: Phase) -> nat {
    match p {
        Phase::Fill => 2,
        Phase::Refill { .. } => 2,
        _ => 1,
    }
}

/// The batch run from where it stands up to its next poll or to its end.
pub open spec fn advance(slots: Seq<Slot>, f: Flight) -> Advance {
    match f.phase {
        Phase::Sequential => sequential::advance_sequential(slots, f),
        _ => merge::advance_merge(slots, f),
    }
}

/// Runs a batch up to its next poll or to its end. Returns whether it ended; the records it
/// hands out are then in `batch.out`.
pub fn run_batch(parts: &mut Vec<PartitionState>, batch: &mut Batch) -> (finished: bool)
    ensures
        finished == advance(slots_of(old(parts)@), old(batch)@).finished,
        slots_of(final(parts)@) == advance(slots_of(old(parts)@), old(batch)@).slots,
        final(batch)@ == advance(slots_of(old(parts)@), old(batch)@).flight,
{
    match batch.phase {
        Phase::Sequential => consume_sequential(parts, batch),
        _ => consume_merge(parts, batch),
    }
}

/// A new batch of at most `limit` records: the newest first when `newest` is set, else in
/// order of arrival for a plan of at most one partition, else the oldest first.
pub open spec fn new_flight(slots: Seq<Slot>, newest: bool, limit: usize) -> Flight {
    Flight {
        limit,
        out: Seq::empty(),
        idle: 0,
        phase: if newest {
            Phase::Drain
        } else if slots.len() <= 1 {
            Phase::Sequential
        } else {
            Phase::Fill
        },
        polled: false,
        only_failures: true,
        last_failure: None,
    }
}

/// Finds the slot of `partition`.
pub fn locate(parts: &Vec<PartitionState>, partition: i32) -> (r: Option<usize>)
    ensures
        match r {
            Some(i) => find_slot(slots_of(parts@), partition) == Some(i as int) && i < parts.len(),
            None => find_slot(slots_of(parts@), partition) is None,
        },
{
    let mut i: usize = 0;
    while i < parts.len()
        invariant
            i <= parts.len(),
            find_slot(slots_of(parts@), partition) == find_from(slots_of(parts@), partition, i as int),
        decreases parts.len() - i,
    {
        if parts[i].partition == partition {
            return Some(i);
        }
        i += 1;
    }
    None
}

/// Says how a record of `partition` at `offset` relates to the plan.
pub fn place(parts: &Vec<PartitionState>, partition: i32, offset: i64) -> (v: Verdict)
    ensures
        v == classify(slots_of(parts@), partition, offset),
        match v {
            Verdict::Foreign => find_slot(slots_of(parts@), partition) is None,
            Verdict::Below(i) => i < parts.len() && find_slot(slots_of(parts@), partition) == Some(
                i as int,
            ),
            Verdict::Beyond(i) => i < parts.len() && find_slot(slots_of(parts@), partition) == Some(
                i as int,
            ),
            Verdict::InWindow(i) => i < parts.len() && find_slot(slots_of(parts@), partition)
                == Some(i as int) && parts[i as int].start <= offset < parts[i as int].end,
        },
{
    match locate(parts, partition) {
        None => Verdict::Foreign,
        Some(i) => {
            if offset >= parts[i].end {
                Verdict::Beyond(i)
            } else if offset < parts[i].start {
                Verdict::Below(i)
            } else {
                Verdict::InWindow(i)
            }
        },
    }
}

/// Whether every partition of the plan is done.
pub fn every_partition_done(parts: &Vec<PartitionState>) -> (r: bool)
    ensures
        r == all_done(slots_of(parts@)),
{
    let mut i: usize = 0;
    while i < parts.len()
        invariant
            i <= parts.len(),
            forall|j: int| 0 <= j < i ==> (#[trigger] slots_of(parts@)[j]).done,
        decreases parts.len() - i,
    {
        if !parts[i].done {
            assert(!slots_of(parts@)[i as int].done);
            return false;
        }
        i += 1;
    }
    true
}

/// Whether no partition holds a buffered record.
pub fn every_buffer_empty(parts: &Vec<PartitionState>) -> (r: bool)
    ensures
        r == all_empty(slots_of(parts@)),
{
    let mut i: usize = 0;
    while i < parts.len()
        invariant
            i <= parts.len(),
            forall|j: int| 0 <= j < i ==> (#[trigger] slots_of(parts@)[j]).buffer.len() == 0,
        decreases parts.len() - i,
    {
        if parts[i].buffer.len() != 0 {
            assert(slots_of(parts@)[i as int].buffer.len() != 0);
            return false;
        }
        i += 1;
    }
    true
}

/// Whether some partition that is not done has nothing buffered.
pub fn some_head_missing(parts: &Vec<PartitionState>) -> (r: bool)
    ensures
        r == needs_head(slots_of(parts@)),
{
    let mut i: usize = 0;
    while i < parts.len()
        invariant
            i <= parts.len(),
            forall|j: int|
                0 <= j < i ==> (#[trigger] slots_of(parts@)[j]).done || slots_of(
                    parts@,
                )[j].buffer.len() != 0,
        decreases parts.len() - i,
    {
        if !parts[i].done && parts[i].buffer.len() == 0 {
            assert(!slots_of(parts@)[i as int].done && slots_of(parts@)[i as int].buffer.len() == 0);
            return true;
        }
        i += 1;
    }
    false
}

/// Records a poll that brought nothing, or failed with `failure`.
pub fn note_idle(batch: &mut Batch, failure: Option<String>)
    ensures
        final(batch)@ == deliver_idle(old(batch)@, failure),
{
    match batch.phase {
        Phase::Refill { target, local_idle } => {
            let next: u32 = if local_idle < u32::MAX {
                local_idle + 1
            } else {
                local_idle
            };
            batch.phase = Phase::Refill { target, local_idle: next };
        },
        _ => {
            if batch.idle < u32::MAX {
                batch.idle = batch.idle + 1;
            }
        },
    }
    batch.polled = true;
    match failure {
        Some(e) => {
            batch.last_failure = Some(e);
        },
        None => {
            batch.only_failures = false;
        },
    }
}

/// Marks the partition in slot `i` done.
pub fn close_partition(parts: &mut Vec<PartitionState>, i: usize)
    requires
        i < old(parts).len(),
    ensures
        slots_of(final(parts)@) == mark_done(slots_of(old(parts)@), i as int),
{
    parts[i].done = true;
    assert(slots_of(parts@) =~= mark_done(slots_of(old(parts)@), i as int));
}

/// Takes a record of the window of slot `i` into the batch: straight to the output of a
/// sequential batch, whose count of idle polls begins anew, else to the buffer of its
/// partition.
pub fn take_in(
    parts: &mut Vec<PartitionState>,
    batch: &mut Batch,
    i: usize,
    offset: i64,
    item: (i64, UiMessage),
)
    requires
        i < old(parts).len(),
        offset < old(parts)[i as int].end,
    ensures
        final(batch)@ == (if old(batch).phase is Sequential {
            Flight { out: old(batch)@.out.push(item), idle: 0, ..old(batch)@ }
        } else {
            old(batch)@
        }),
        slots_of(final(parts)@) == (if old(batch).phase is Sequential {
            pass_item(slots_of(old(parts)@), i as int, offset)
        } else {
            buffer_item(slots_of(old(parts)@), i as int, offset, item)
        }),
{
    let last: bool = offset >= parts[i].end - 1;
    match batch.phase {
        Phase::Sequential => {
            batch.out.push(item);
            batch.idle = 0;
            if last {
                parts[i].done = true;
            }
            assert(slots_of(parts@) =~= pass_item(slots_of(old(parts)@), i as int, offset));
        },
        _ => {
            parts[i].buffer.push_back(item);
            if last {
                parts[i].done = true;
            }
            assert(slots_of(parts@) =~= buffer_item(slots_of(old(parts)@), i as int, offset, item));
        },
    }
}

} // verus!
