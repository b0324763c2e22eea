use vstd::prelude::*;
use super::jq::{eval_jq_bool, evaluates_to, lemma_evaluation_unique, outcome_view};
use super::{filter_passes, passes, FilterMode, StartFilteredLoadArgs};
use crate::json::{json_model, json_parse, parsed_json};
use crate::kafka::assignment::Watermarks;
use crate::kafka::reader::{PartitionState, PollEvent, RawRecord};
use crate::kafka::service::Kafka;
use crate::kafka::types::UiMessage;

verus! {

/// Number of matches after which a filtered load ends when none is asked for.
pub const DEFAULT_LOAD_LIMIT: usize = 200;

/// One partition of a filtered load: the end of its window and whether it is done.
#[derive(Debug, Clone, Copy)]
pub struct LoadPartition {
    pub partition: i32,
    pub end: i64,
    pub done: bool,
}

/// A filtered load in progress: records are polled one by one and those that pass the
/// filters are handed to the caller, until as many were handed out as asked for, every
/// partition has reached the end of its window, or the load is cancelled.
#[derive(Debug)]
pub struct FilteredLoad {
    pub limit: usize,
    pub key_filter: Option<String>,
    pub message_filter: Option<String>,
    pub mode: FilterMode,
    pub parts: Vec<LoadPartition>,
    /// Number of records handed out so far.
    pub emitted: usize,
    /// The load has ended.
    pub over: bool,
    /// The load has ended because it was cancelled.
    pub cancelled: bool,
}

/// What a filtered load does next.
#[derive(Debug, Clone, Copy)]
pub enum LoadStep {
    /// Poll the source once and pass the result to `on_poll`.
    Poll,
    /// The load is complete; so many records were handed out.
    Done(usize),
    /// The load was cancelled.
    Cancelled,
}

/// What one polled record led to.
#[derive(Debug)]
pub struct Turn {
    /// The record, if it passed the filters.
    pub message: Option<UiMessage>,
    /// Set when this record was the last one asked for: the load is complete, and so many
    /// records were handed out.
    pub done: Option<usize>,
}

/// Every partition of the load is done.
pub open spec fn load_done(parts: Seq<LoadPartition>) -> bool {
    forall|i: int| 0 <= i < parts.len() ==> (#[trigger] parts[i]).done
}

/// Index of the first partition at or after `from` with the id `partition`.
pub open spec fn load_find(parts: Seq<LoadPartition>, partition: i32, from: int) -> Option<int>
    decreases parts.len() - from,
{
    if from < 0 || from >= parts.len() {
        None
    } else if parts[from].partition == partition {
        Some(from)
    } else {
        load_find(parts, partition, from + 1)
    }
}

/// The low watermark given for `partition`, if one is given.
pub open spec fn low_of(marks: Seq<Watermarks>, partition: i32, from: int) -> Option<i64>
    decreases marks.len() - from,
{
    if from < 0 || from >= marks.len() {
        None
    } else if marks[from].partition == partition {
        Some(marks[from].low)
    } else {
        low_of(marks, partition, from + 1)
    }
}

/// The partition of a load for a slot of the plan: done from the start when its window is
/// empty, that is, when its low watermark has reached the end of the window.
pub open spec fn load_partition(slot: PartitionState, marks: Seq<Watermarks>) -> LoadPartition {
    LoadPartition {
        partition: slot.partition,
        end: slot.end,
        done: match low_of(marks, slot.partition, 0) {
            Some(low) => low >= slot.end,
            None => false,
        },
    }
}

/// Partition `i` marked done.
pub open spec fn load_closed(parts: Seq<LoadPartition>, i: int) -> Seq<LoadPartition> {
    parts.update(i, LoadPartition { done: true, ..parts[i] })
}

/// Whether the message of a record passes the message filter: as a text to be contained,
/// or as an expression that holds of the message read as JSON. A message that is no JSON
/// passes no expression.
pub open spec fn message_passes(message: Seq<char>, filter: Option<String>, mode: FilterMode) -> bool {
    match mode {
        FilterMode::Plain => filter_passes(message, filter),
        FilterMode::Jq => match filter {
            Some(f) => f@.len() == 0 || match parsed_json(message) {
                Some(m) => evaluates_to(f@, m, Ok(true)),
                None => false,
            },
            None => true,
        },
    }
}

/// Looks up the low watermark given for a partition.
fn find_low(marks: &Vec<Watermarks>, partition: i32) -> (r: Option<i64>)
    ensures
        r == low_of(marks@, partition, 0),
{
    let mut i: usize = 0;
    while i < marks.len()
        invariant
            i <= marks.len(),
            low_of(marks@, partition, 0) == low_of(marks@, partition, i as int),
        decreases marks.len() - i,
    {
        if marks[i].partition == partition {
            return Some(marks[i].low);
        }
        i += 1;
    }
    None
}

/// Looks up the partition of a load by its id.
fn find_part(parts: &Vec<LoadPartition>, partition: i32) -> (r: Option<usize>)
    ensures
        match r {
            Some(k) => load_find(parts@, partition, 0) == Some(k as int) && k < parts.len(),
            None => load_find(parts@, partition, 0) is None,
        },
{
    let mut i: usize = 0;
    while i < parts.len()
        invariant
            i <= parts.len(),
            load_find(parts@, partition, 0) == load_find(parts@, partition, i as int),
        decreases parts.len() - i,
    {
        if parts[i].partition == partition {
            return Some(i);
        }
        i += 1;
    }
    None
}

impl FilteredLoad {
    /// Whether a record with this key and message passes both filters.
    pub open spec fn lets_pass(&self, key: Seq<char>, message: Seq<char>) -> bool {
        filter_passes(key, self.key_filter) && message_passes(
            message,
            self.message_filter,
            self.mode,
        )
    }

    /// A filtered load over the plan of `reader`. The limit is 200 and the message filter
    /// is read as plain text unless the arguments say otherwise. `marks` holds the
    /// watermarks that the caller could fetch; a partition whose window is empty is done
    /// from the start.
    pub fn start(reader: &Kafka, args: StartFilteredLoadArgs, marks: &Vec<Watermarks>) -> (load:
        FilteredLoad)
        ensures
            load.limit == (match args.limit {
                Some(n) => n,
                None => DEFAULT_LOAD_LIMIT,
            }),
            load.key_filter == args.key_filter,
            load.message_filter == args.message_filter,
            load.mode == (match args.message_filter_mode {
                Some(m) => m,
                None => FilterMode::Plain,
            }),
            load.emitted == 0,
            !load.over,
            !load.cancelled,
            load.parts@ == reader.partitions@.map_values(
                |slot: PartitionState| load_partition(slot, marks@),
            ),
    {
        let mut parts: Vec<LoadPartition> = Vec::new();
        let mut i: usize = 0;
        while i < reader.partitions.len()
            invariant
                i <= reader.partitions.len(),
                parts@.len() == i,
                forall|k: int|
                    0 <= k < i ==> #[trigger] parts@[k] == load_partition(
                        reader.partitions@[k],
                        marks@,
                    ),
            decreases reader.partitions.len() - i,
        {
            let slot = &reader.partitions[i];
            let done: bool = match find_low(marks, slot.partition) {
                Some(low) => low >= slot.end,
                None => false,
            };
            parts.push(LoadPartition { partition: slot.partition, end: slot.end, done });
            i += 1;
        }
        assert(parts@ =~= reader.partitions@.map_values(
            |slot: PartitionState| load_partition(slot, marks@),
        ));
        FilteredLoad {
            limit: match args.limit {
                Some(n) => n,
                None => DEFAULT_LOAD_LIMIT,
            },
            key_filter: args.key_filter,
            message_filter: args.message_filter,
            mode: match args.message_filter_mode {
                Some(m) => m,
                None => FilterMode::Plain,
            },
            parts,
            emitted: 0,
            over: false,
            cancelled: false,
        }
    }

    /// Whether every partition of the load is done.
    pub fn all_done(&self) -> (r: bool)
        ensures
            r == load_done(self.parts@),
    {
        let mut i: usize = 0;
        while i < self.parts.len()
            invariant
                i <= self.parts.len(),
                forall|j: int| 0 <= j < i ==> (#[trigger] self.parts@[j]).done,
            decreases self.parts.len() - i,
        {
            if !self.parts[i].done {
                return false;
            }
            i += 1;
        }
        true
    }

    /// Whether `after` and `step` are what `begin_turn` leaves and answers. A cancelled load
    /// ends as cancelled; a load whose partitions are all done ends as complete; otherwise
    /// the source is to be polled. A load without partitions runs until it is cancelled. A
    /// load that has ended stays ended as it ended: cancelled if it was cancelled, complete
    /// otherwise. Nothing else of the load changes.
    pub open spec fn turned(&self, cancelled: bool, after: FilteredLoad, step: LoadStep) -> bool {
        &&& after.limit == self.limit
        &&& after.key_filter == self.key_filter
        &&& after.message_filter == self.message_filter
        &&& after.mode == self.mode
        &&& after.parts == self.parts
        &&& after.emitted == self.emitted
        &&& step == (if self.over {
            if self.cancelled {
                LoadStep::Cancelled
            } else {
                LoadStep::Done(self.emitted)
            }
        } else if cancelled {
            LoadStep::Cancelled
        } else if self.parts@.len() > 0 && load_done(self.parts@) {
            LoadStep::Done(self.emitted)
        } else {
            LoadStep::Poll
        })
        &&& after.over == !(step is Poll)
        &&& after.cancelled == (self.cancelled || step is Cancelled)
    }

    /// Says what the load does next, as `turned` states it.
    pub fn begin_turn(&mut self, cancelled: bool) -> (step: LoadStep)
        ensures
            old(self).turned(cancelled, *final(self), step),
    {
        if self.over {
            if self.cancelled {
                return LoadStep::Cancelled;
            }
            return LoadStep::Done(self.emitted);
        }
        if cancelled {
            self.over = true;
            self.cancelled = true;
            return LoadStep::Cancelled;
        }
        if self.parts.len() > 0 && self.all_done() {
            self.over = true;
            return LoadStep::Done(self.emitted);
        }
        LoadStep::Poll
    }

    /// Whether a record with this key and message passes both filters.
    pub fn admits(&self, key: &str, message: &str) -> (r: bool)
        ensures
            r == self.lets_pass(key@, message@),
    {
        if !passes(key, &self.key_filter) {
            return false;
        }
        match self.mode {
            FilterMode::Plain => passes(message, &self.message_filter),
            FilterMode::Jq => match &self.message_filter {
                None => true,
                Some(f) => {
                    if f.as_str().unicode_len() == 0 {
                        return true;
                    }
                    match json_parse(message) {
                        None => false,
                        Some(value) => {
                            let outcome = eval_jq_bool(f.as_str(), &value);
                            proof {
                                if evaluates_to(f@, json_model(value), Ok(true)) {
                                    lemma_evaluation_unique(
                                        f@,
                                        json_model(value),
                                        outcome_view(outcome),
                                        Ok(true),
                                    );
                                }
                            }
                            match outcome {
                                Ok(true) => true,
                                _ => false,
                            }
                        },
                    }
                },
            },
        }
    }

    /// Whether `after` and `turn` are what `on_poll` leaves and answers on a record `r`
    /// that `reader` builds into `item`.
    ///
    /// A record of a partition outside the load changes nothing. One at or past the end of
    /// its window marks the partition done. One that passes the filters is handed out and
    /// counted; when the count reaches the limit, the load ends. Otherwise the last record
    /// of a window marks its partition done.
    pub open spec fn takes(&self, r: RawRecord, item: (i64, UiMessage), after: FilteredLoad, turn: Turn) -> bool {
        &&& after.limit == self.limit
        &&& after.key_filter == self.key_filter
        &&& after.message_filter == self.message_filter
        &&& after.mode == self.mode
        &&& after.cancelled == self.cancelled
        &&& match load_find(self.parts@, r.partition, 0) {
            None => after.parts@ == self.parts@ && after.emitted == self.emitted && !after.over
                && turn.message is None && turn.done is None,
            Some(i) => if r.offset >= self.parts@[i].end {
                after.parts@ == load_closed(self.parts@, i) && after.emitted == self.emitted
                    && !after.over && turn.message is None && turn.done is None
            } else {
                let hit = self.lets_pass(item.1.key@, item.1.message@);
                let count = if hit && self.emitted < usize::MAX {
                    (self.emitted + 1) as usize
                } else {
                    self.emitted
                };
                let full = hit && count >= self.limit;
                &&& after.emitted == count
                &&& after.over == full
                &&& turn.message == (if hit {
                    Some(item.1)
                } else {
                    None
                })
                &&& turn.done == (if full {
                    Some(count)
                } else {
                    None
                })
                &&& after.parts@ == (if !full && r.offset >= self.parts@[i].end - 1 {
                    load_closed(self.parts@, i)
                } else {
                    self.parts@
                })
            },
        }
    }

    /// Whether `after` and `turn` are what `on_poll` leaves and answers on `event`.
    ///
    /// An idle or failed poll, and any poll after the load has ended, changes nothing. A
    /// record is decoded as `reader` decodes it and then treated as `takes` says.
    pub open spec fn polled(&self, reader: Kafka, event: PollEvent, after: FilteredLoad, turn: Turn) -> bool {
        match event {
            PollEvent::Record(r) => if self.over {
                after == *self && turn.message is None && turn.done is None
            } else {
                exists|item: (i64, UiMessage)|
                    (load_find(self.parts@, r.partition, 0) matches Some(i) && r.offset
                        < self.parts@[i].end ==> reader.describes(r, item)) && #[trigger] self.takes(
                        r,
                        item,
                        after,
                        turn,
                    )
            },
            _ => after == *self && turn.message is None && turn.done is None,
        }
    }

    /// Takes in the result of one poll, as `polled` states it.
    pub fn on_poll(&mut self, reader: &Kafka, event: PollEvent) -> (turn: Turn)
        ensures
            old(self).polled(*reader, event, *final(self), turn),
    {
        let r = match event {
            PollEvent::Record(r) => r,
            _ => {
                return Turn { message: None, done: None };
            },
        };
        if self.over {
            return Turn { message: None, done: None };
        }
        let found = find_part(&self.parts, r.partition);
        let k = match found {
            Some(k) => k,
            None => {
                let turn = Turn { message: None, done: None };
                assert(old(self).takes(r, arbitrary(), *self, turn));
                return turn;
            },
        };
        if r.offset >= self.parts[k].end {
            self.parts[k].done = true;
            let turn = Turn { message: None, done: None };
            assert(self.parts@ =~= load_closed(old(self).parts@, k as int));
            assert(old(self).takes(r, arbitrary(), *self, turn));
            return turn;
        }
        let item = reader.build_item(&r);
        let ghost built = item;
        let hit: bool = self.admits(item.1.key.as_str(), item.1.message.as_str());
        let mut message: Option<UiMessage> = None;
        let mut done: Option<usize> = None;
        if hit {
            if self.emitted < usize::MAX {
                self.emitted = self.emitted + 1;
            }
            message = Some(item.1);
            if self.emitted >= self.limit {
                self.over = true;
                done = Some(self.emitted);
            }
        }
        if !self.over && r.offset >= self.parts[k].end - 1 {
            self.parts[k].done = true;
            assert(self.parts@ =~= load_closed(old(self).parts@, k as int));
        }
        let turn = Turn { message, done };
        assert(old(self).takes(r, built, *self, turn));
        turn
    }
}

/// One call of the driver on a filtered load: it asks what to do next, saying whether the
/// load was cancelled, or it hands over the result of a poll.
pub enum LoadCall {
    Begin(bool),
    Polled(PollEvent),
}

/// `after` is the load after the call on `before`, and `handed` is the record that the call
/// handed out, if it handed one out.
pub open spec fn follows(
    before: FilteredLoad,
    reader: Kafka,
    call: LoadCall,
    after: FilteredLoad,
    handed: Option<UiMessage>,
) -> bool {
    match call {
        LoadCall::Begin(cancelled) => handed is None && exists|step: LoadStep| #[trigger]
            before.turned(cancelled, after, step),
        LoadCall::Polled(event) => exists|turn: Turn| #[trigger]
            before.polled(reader, event, after, turn) && handed == turn.message,
    }
}

/// A session: the states of a load, one after each call, and what each call handed out.
pub open spec fn session(
    reader: Kafka,
    states: Seq<FilteredLoad>,
    calls: Seq<LoadCall>,
    handed: Seq<Option<UiMessage>>,
) -> bool {
    &&& states.len() == calls.len() + 1
    &&& handed.len() == calls.len()
    &&& forall|i: int|
        0 <= i < calls.len() ==> follows(
            states[i],
            reader,
            #[trigger] calls[i],
            states[i + 1],
            handed[i],
        )
}

/// How many records were handed out.
pub open spec fn handed_count(handed: Seq<Option<UiMessage>>) -> nat
    decreases handed.len(),
{
    if handed.len() == 0 {
        0
    } else if handed.last() is Some {
        handed_count(handed.drop_last()) + 1
    } else {
        handed_count(handed.drop_last())
    }
}

/// A session hands out no more records than its limit, counts each of them, and hands out
/// only records that pass the filters; and once as many were handed out as the limit says,
/// the load has ended. This holds of every order of calls on a load that has just started
/// with a limit of at least one.
pub proof fn law_session_within_limit(
    reader: Kafka,
    states: Seq<FilteredLoad>,
    calls: Seq<LoadCall>,
    handed: Seq<Option<UiMessage>>,
)
    requires
        session(reader, states, calls, handed),
        states[0].emitted == 0,
        !states[0].over,
        states[0].limit >= 1,
    ensures
        handed_count(handed) == states.last().emitted,
        handed_count(handed) <= states[0].limit,
        states.last().emitted >= states[0].limit ==> states.last().over,
        states.last().limit == states[0].limit,
        states.last().key_filter == states[0].key_filter,
        states.last().message_filter == states[0].message_filter,
        states.last().mode == states[0].mode,
        forall|i: int|
            0 <= i < handed.len() && (#[trigger] handed[i]) is Some ==> states[0].lets_pass(
                handed[i]->0.key@,
                handed[i]->0.message@,
            ),
    decreases calls.len(),
{
    if calls.len() > 0 {
        let n = calls.len() as int;
        let states0 = states.drop_last();
        let calls0 = calls.drop_last();
        let handed0 = handed.drop_last();
        assert(session(reader, states0, calls0, handed0)) by {
            assert forall|i: int| 0 <= i < calls0.len() implies follows(
                states0[i],
                reader,
                #[trigger] calls0[i],
                states0[i + 1],
                handed0[i],
            ) by {
                assert(calls0[i] == calls[i]);
                assert(follows(states[i], reader, calls[i], states[i + 1], handed[i]));
            }
        }
        assert(states0[0] == states[0]);
        law_session_within_limit(reader, states0, calls0, handed0);
        let before = states[n - 1];
        let after = states[n];
        assert(states0.last() == before);
        assert(states.last() == after);
        assert(follows(before, reader, calls[n - 1], after, handed[n - 1]));
        assert(handed.last() == handed[n - 1]);
        assert forall|i: int| 0 <= i < handed.len() && (#[trigger] handed[i]) is Some implies states[0].lets_pass(
            handed[i]->0.key@,
            handed[i]->0.message@,
        ) by {
            if i < n - 1 {
                assert(handed0[i] == handed[i]);
            }
        }
    }
}

} // verus!
