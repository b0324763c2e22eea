use vstd::prelude::*;
use super::super::service::record_id;
use super::super::types::UiMessage;
use super::merge_newest::{best_tail, emit_tails};
use super::merge_oldest::{advance_oldest, best_head};
use super::{
    advance, classify, deliver_record, find_from, find_slot, key_le, key_of, phase_rank, pop_head,
    pop_tail, Advance, Flight, Phase, Slot,
};

verus! {

/// Two lists of slots describe the same plan: the same partitions with the same windows.
pub open spec fn same_plan(a: Seq<Slot>, b: Seq<Slot>) -> bool {
    &&& a.len() == b.len()
    &&& forall|i: int|
        0 <= i < a.len() ==> (#[trigger] a[i]).partition == b[i].partition && a[i].start
            == b[i].start && a[i].end == b[i].end
}

/// Every partition that is done in `a` is done in `b`.
pub open spec fn done_grows(a: Seq<Slot>, b: Seq<Slot>) -> bool {
    forall|i: int| 0 <= i < a.len() && 0 <= i < b.len() && (#[trigger] a[i]).done ==> b[i].done
}

/// The record belongs to the slot's partition, lies in its window, and is named by its
/// partition and offset.
pub open spec fn in_window(slot: Slot, item: (i64, UiMessage)) -> bool {
    &&& item.1.partition == slot.partition
    &&& slot.start <= item.1.offset < slot.end
    &&& item.1.id@ == record_id(item.1.partition, item.1.offset)
}

/// The record lies in the window of some partition of the plan.
pub open spec fn in_plan(slots: Seq<Slot>, item: (i64, UiMessage)) -> bool {
    exists|i: int| 0 <= i < slots.len() && in_window(#[trigger] slots[i], item)
}

/// The record of `partition` at `offset` lies in the window of a partition of the plan.
pub open spec fn accepted(slots: Seq<Slot>, partition: i32, offset: i64) -> bool {
    classify(slots, partition, offset) is InWindow
}

/// The record was built from what was polled: where a record of `partition` at `offset` is
/// taken in, `item` carries this partition and offset, and the id that they spell.
pub open spec fn built_from(
    slots: Seq<Slot>,
    partition: i32,
    offset: i64,
    item: (i64, UiMessage),
) -> bool {
    accepted(slots, partition, offset) ==> {
        &&& item.1.partition == partition
        &&& item.1.offset == offset
        &&& item.1.id@ == record_id(partition, offset)
    }
}

/// The message lies in the window of some partition of the plan, and its id is the one that
/// its partition and offset spell.
pub open spec fn message_in_plan(slots: Seq<Slot>, m: UiMessage) -> bool {
    &&& m.id@ == record_id(m.partition, m.offset)
    &&& exists|i: int|
        0 <= i < slots.len() && m.partition == (#[trigger] slots[i]).partition && slots[i].start
            <= m.offset < slots[i].end
}

/// No partition occurs twice.
pub open spec fn partitions_distinct(slots: Seq<Slot>) -> bool {
    forall|i: int, j: int|
        0 <= i < j < slots.len() ==> (#[trigger] slots[i]).partition != (
        #[trigger] slots[j]).partition
}

/// The plan is sound: no partition occurs twice, and every buffered record lies in the
/// window of the partition that buffers it and carries the id of its partition and offset.
pub open spec fn slots_wf(slots: Seq<Slot>) -> bool {
    &&& partitions_distinct(slots)
    &&& forall|i: int, k: int|
        0 <= i < slots.len() && 0 <= k < slots[i].buffer.len() ==> in_window(
            slots[i],
            #[trigger] slots[i].buffer[k],
        )
}

/// The batch is sound: it holds no more records than its limit, each from the plan and
/// named by its partition and offset.
pub open spec fn flight_wf(slots: Seq<Slot>, f: Flight) -> bool {
    &&& f.out.len() <= f.limit
    &&& forall|k: int| 0 <= k < f.out.len() ==> in_plan(slots, #[trigger] f.out[k])
}

/// What `find_slot` answers: the first slot of the partition, or none when no slot has it.
pub proof fn lemma_find_from(slots: Seq<Slot>, partition: i32, from: int)
    requires
        0 <= from,
    ensures
        match find_from(slots, partition, from) {
            Some(i) => from <= i < slots.len() && slots[i].partition == partition && forall|j: int|
                from <= j < i ==> (#[trigger] slots[j]).partition != partition,
            None => forall|j: int|
                from <= j < slots.len() ==> (#[trigger] slots[j]).partition != partition,
        },
    decreases slots.len() - from,
{
    if from < slots.len() && slots[from].partition != partition {
        lemma_find_from(slots, partition, from + 1);
    }
}

/// In a plan without repeated partitions, the slot of a partition is found where it stands.
pub proof fn lemma_find_slot_at(slots: Seq<Slot>, i: int)
    requires
        partitions_distinct(slots),
        0 <= i < slots.len(),
    ensures
        find_slot(slots, slots[i].partition) == Some(i),
{
    lemma_find_from(slots, slots[i].partition, 0);
}

/// Finding a slot depends on the plan alone.
pub proof fn lemma_find_same_plan(a: Seq<Slot>, b: Seq<Slot>, partition: i32, from: int)
    requires
        same_plan(a, b),
        0 <= from,
    ensures
        find_from(a, partition, from) == find_from(b, partition, from),
    decreases a.len() - from,
{
    if from < a.len() {
        assert(a[from].partition == b[from].partition);
        if a[from].partition != partition {
            lemma_find_same_plan(a, b, partition, from + 1);
        }
    }
}

/// A record of the plan stays one when the plan stays the same.
pub proof fn lemma_in_plan_same_plan(a: Seq<Slot>, b: Seq<Slot>, item: (i64, UiMessage))
    requires
        same_plan(a, b),
        in_plan(a, item),
    ensures
        in_plan(b, item),
{
    let i = choose|i: int| 0 <= i < a.len() && in_window(#[trigger] a[i], item);
    assert(a[i].partition == b[i].partition);
    assert(in_window(b[i], item));
}

/// A sound batch stays sound over the same plan.
pub proof fn lemma_flight_wf_same_plan(a: Seq<Slot>, b: Seq<Slot>, f: Flight)
    requires
        same_plan(a, b),
        flight_wf(a, f),
    ensures
        flight_wf(b, f),
{
    assert forall|k: int| 0 <= k < f.out.len() implies in_plan(b, #[trigger] f.out[k]) by {
        lemma_in_plan_same_plan(a, b, f.out[k]);
    }
}

/// Which slot holds the oldest record with the smallest key: it holds a record, and no
/// other held oldest record has a smaller key.
pub proof fn lemma_best_head(slots: Seq<Slot>, n: int)
    requires
        0 <= n <= slots.len(),
    ensures
        match best_head(slots, n) {
            Some(i) => 0 <= i < n && slots[i].buffer.len() > 0 && forall|j: int|
                0 <= j < n && (#[trigger] slots[j]).buffer.len() > 0 ==> key_le(
                    key_of(slots[i].buffer[0]),
                    key_of(slots[j].buffer[0]),
                ),
            None => forall|j: int| 0 <= j < n ==> (#[trigger] slots[j]).buffer.len() == 0,
        },
    decreases n,
{
    if n > 0 {
        lemma_best_head(slots, n - 1);
    }
}

/// Which slot holds the newest record with the largest key: it holds a record, and no other
/// held newest record has a larger key.
pub proof fn lemma_best_tail(slots: Seq<Slot>, n: int)
    requires
        0 <= n <= slots.len(),
    ensures
        match best_tail(slots, n) {
            Some(i) => 0 <= i < n && slots[i].buffer.len() > 0 && forall|j: int|
                0 <= j < n && (#[trigger] slots[j]).buffer.len() > 0 ==> key_le(
                    key_of(slots[j].buffer.last()),
                    key_of(slots[i].buffer.last()),
                ),
            None => forall|j: int| 0 <= j < n ==> (#[trigger] slots[j]).buffer.len() == 0,
        },
    decreases n,
{
    if n > 0 {
        lemma_best_tail(slots, n - 1);
    }
}

/// Handing out the newest records keeps the plan, the done marks and the limit, and leaves
/// plan and batch sound.
pub proof fn lemma_emit_tails_keeps_plan(slots: Seq<Slot>, out: Seq<(i64, UiMessage)>, limit: usize)
    ensures
        same_plan(slots, emit_tails(slots, out, limit).0),
        done_grows(slots, emit_tails(slots, out, limit).0),
        out.len() <= limit ==> emit_tails(slots, out, limit).1.len() <= limit,
        slots_wf(slots) ==> slots_wf(emit_tails(slots, out, limit).0),
        slots_wf(slots) && (forall|k: int| 0 <= k < out.len() ==> in_plan(slots, #[trigger] out[k]))
            ==> (forall|k: int|
            0 <= k < emit_tails(slots, out, limit).1.len() ==> in_plan(
                emit_tails(slots, out, limit).0,
                #[trigger] emit_tails(slots, out, limit).1[k],
            )),
    decreases limit - out.len(),
{
    if out.len() < limit {
        lemma_best_tail(slots, slots.len() as int);
        match best_tail(slots, slots.len() as int) {
            None => {},
            Some(i) => {
                let s2 = pop_tail(slots, i);
                let o2 = out.push(slots[i].buffer.last());
                lemma_emit_tails_keeps_plan(s2, o2, limit);
                let r = emit_tails(s2, o2, limit);
                assert(same_plan(slots, r.0)) by {
                    assert forall|j: int| 0 <= j < slots.len() implies (#[trigger] slots[j]).partition
                        == r.0[j].partition && slots[j].start == r.0[j].start && slots[j].end
                        == r.0[j].end by {
                        assert(s2[j].partition == r.0[j].partition);
                    }
                }
                assert(done_grows(slots, r.0)) by {
                    assert forall|j: int|
                        0 <= j < slots.len() && 0 <= j < r.0.len() && (
                        #[trigger] slots[j]).done implies r.0[j].done by {
                        assert(s2[j].done);
                    }
                }
                if slots_wf(slots) {
                    assert(slots_wf(s2)) by {
                        assert forall|a: int, k: int|
                            0 <= a < s2.len() && 0 <= k < s2[a].buffer.len() implies in_window(
                            s2[a],
                            #[trigger] s2[a].buffer[k],
                        ) by {
                            assert(in_window(slots[a], slots[a].buffer[k]));
                        }
                    }
                    if forall|k: int| 0 <= k < out.len() ==> in_plan(slots, #[trigger] out[k]) {
                        assert forall|k: int| 0 <= k < o2.len() implies in_plan(
                            s2,
                            #[trigger] o2[k],
                        ) by {
                            if k < out.len() {
                                assert(in_plan(slots, out[k]));
                                let w = choose|w: int|
                                    0 <= w < slots.len() && in_window(#[trigger] slots[w], out[k]);
                                assert(in_window(s2[w], o2[k]));
                            } else {
                                assert(in_window(slots[i], slots[i].buffer[slots[i].buffer.len() - 1]));
                                assert(in_window(s2[i], o2[k]));
                            }
                        }
                    }
                }
            },
        }
    }
}

/// A batch and plan that are sound together.
pub open spec fn sound(slots: Seq<Slot>, f: Flight) -> bool {
    slots_wf(slots) && flight_wf(slots, f)
}

/// Taking the oldest record out of a buffer keeps the plan, and keeps it sound.
pub proof fn lemma_pop_head_keeps_plan(slots: Seq<Slot>, i: int)
    requires
        0 <= i < slots.len(),
        slots[i].buffer.len() > 0,
    ensures
        same_plan(slots, pop_head(slots, i)),
        done_grows(slots, pop_head(slots, i)),
        slots_wf(slots) ==> slots_wf(pop_head(slots, i)) && in_window(
            pop_head(slots, i)[i],
            slots[i].buffer[0],
        ),
{
    let s2 = pop_head(slots, i);
    if slots_wf(slots) {
        assert forall|a: int, k: int|
            0 <= a < s2.len() && 0 <= k < s2[a].buffer.len() implies in_window(
            s2[a],
            #[trigger] s2[a].buffer[k],
        ) by {
            if a == i {
                assert(in_window(slots[a], slots[a].buffer[k + 1]));
            } else {
                assert(in_window(slots[a], slots[a].buffer[k]));
            }
        }
        assert(in_window(slots[i], slots[i].buffer[0]));
    }
}

/// Running an oldest-first batch keeps the plan, the done marks and the limit, and leaves
/// plan and batch sound.
pub proof fn lemma_oldest_keeps_plan(slots: Seq<Slot>, f: Flight)
    ensures
        same_plan(slots, advance_oldest(slots, f).slots),
        done_grows(slots, advance_oldest(slots, f).slots),
        advance_oldest(slots, f).flight.limit == f.limit,
        sound(slots, f) ==> sound(advance_oldest(slots, f).slots, advance_oldest(slots, f).flight),
    decreases f.limit - f.out.len(), phase_rank(f.phase),
{
    match f.phase {
        Phase::Fill => {
            let f2 = Flight { phase: Phase::Merge, ..f };
            lemma_oldest_keeps_plan(slots, f2);
        },
        Phase::Refill { target, local_idle } => {
            let f2 = Flight { phase: Phase::Merge, ..f };
            lemma_oldest_keeps_plan(slots, f2);
        },
        _ => {
            if f.out.len() < f.limit {
                lemma_best_head(slots, slots.len() as int);
                match best_head(slots, slots.len() as int) {
                    None => {},
                    Some(i) => {
                        let s2 = pop_head(slots, i);
                        let f2 = Flight {
                            out: f.out.push(slots[i].buffer[0]),
                            phase: if slots[i].buffer.len() == 1 {
                                Phase::Refill { target: i as usize, local_idle: 0 }
                            } else {
                                Phase::Merge
                            },
                            ..f
                        };
                        lemma_pop_head_keeps_plan(slots, i);
                        lemma_oldest_keeps_plan(s2, f2);
                        let a = advance_oldest(s2, f2);
                        assert(same_plan(slots, a.slots)) by {
                            assert forall|j: int| 0 <= j < slots.len() implies (
                            #[trigger] slots[j]).partition == a.slots[j].partition && slots[j].start
                                == a.slots[j].start && slots[j].end == a.slots[j].end by {
                                assert(s2[j].partition == a.slots[j].partition);
                            }
                        }
                        assert(done_grows(slots, a.slots)) by {
                            assert forall|j: int|
                                0 <= j < slots.len() && 0 <= j < a.slots.len() && (
                                #[trigger] slots[j]).done implies a.slots[j].done by {
                                assert(s2[j].done);
                            }
                        }
                        if sound(slots, f) {
                            assert(flight_wf(s2, f2)) by {
                                assert forall|k: int| 0 <= k < f2.out.len() implies in_plan(
                                    s2,
                                    #[trigger] f2.out[k],
                                ) by {
                                    if k < f.out.len() {
                                        lemma_in_plan_same_plan(slots, s2, f.out[k]);
                                    } else {
                                        assert(in_window(s2[i], f2.out[k]));
                                    }
                                }
                            }
                        }
                    },
                }
            }
        },
    }
}

/// Running a batch up to its next poll or its end keeps the plan, the done marks and the
/// limit, and leaves plan and batch sound.
pub proof fn lemma_advance_keeps_plan(slots: Seq<Slot>, f: Flight)
    ensures
        same_plan(slots, advance(slots, f).slots),
        done_grows(slots, advance(slots, f).slots),
        advance(slots, f).flight.limit == f.limit,
        sound(slots, f) ==> sound(advance(slots, f).slots, advance(slots, f).flight),
{
    match f.phase {
        Phase::Sequential => {},
        Phase::Drain => {
            lemma_emit_tails_keeps_plan(slots, f.out, f.limit);
        },
        _ => {
            lemma_oldest_keeps_plan(slots, f);
        },
    }
}

/// A batch that waits for a poll: run again where it stands, it asks for the poll again.
pub open spec fn waiting(slots: Seq<Slot>, f: Flight) -> bool {
    advance(slots, f) == (Advance { slots, flight: f, finished: false })
}

/// A batch that has asked for a poll waits for it.
pub proof fn lemma_advance_waits(slots: Seq<Slot>, f: Flight)
    ensures
        !advance(slots, f).finished ==> waiting(advance(slots, f).slots, advance(slots, f).flight),
{
    match f.phase {
        Phase::Sequential => {},
        Phase::Drain => {},
        _ => {
            lemma_oldest_waits(slots, f);
        },
    }
}

/// An oldest-first batch that has asked for a poll waits for it.
pub proof fn lemma_oldest_waits(slots: Seq<Slot>, f: Flight)
    requires
        !(f.phase is Sequential),
        !(f.phase is Drain),
    ensures
        !advance_oldest(slots, f).finished ==> waiting(
            advance_oldest(slots, f).slots,
            advance_oldest(slots, f).flight,
        ),
        !(advance_oldest(slots, f).flight.phase is Sequential),
        !(advance_oldest(slots, f).flight.phase is Drain),
    decreases f.limit - f.out.len(), phase_rank(f.phase),
{
    match f.phase {
        Phase::Fill => {
            if !super::needs_head(slots) || f.idle >= super::IDLE_LIMIT_FILL {
                lemma_oldest_waits(slots, Flight { phase: Phase::Merge, ..f });
            }
        },
        Phase::Refill { target, local_idle } => {
            if super::merge_oldest::refill_over(slots, target, local_idle) {
                lemma_oldest_waits(slots, Flight { phase: Phase::Merge, ..f });
            }
        },
        _ => {
            if f.out.len() < f.limit {
                match best_head(slots, slots.len() as int) {
                    None => {},
                    Some(i) => {
                        let s2 = pop_head(slots, i);
                        let f2 = Flight {
                            out: f.out.push(slots[i].buffer[0]),
                            phase: if slots[i].buffer.len() == 1 {
                                Phase::Refill { target: i as usize, local_idle: 0 }
                            } else {
                                Phase::Merge
                            },
                            ..f
                        };
                        lemma_oldest_waits(s2, f2);
                    },
                }
            }
        },
    }
}

/// Taking in the result of a poll keeps the plan and the done marks, and leaves plan and
/// batch sound when the record was built from what was polled and the batch was waiting.
pub proof fn lemma_deliver_keeps_plan(
    slots: Seq<Slot>,
    f: Flight,
    partition: i32,
    offset: i64,
    item: (i64, UiMessage),
)
    ensures
        same_plan(slots, deliver_record(slots, f, partition, offset, item).0),
        done_grows(slots, deliver_record(slots, f, partition, offset, item).0),
        deliver_record(slots, f, partition, offset, item).1.limit == f.limit,
        sound(slots, f) && waiting(slots, f) && built_from(slots, partition, offset, item)
            ==> sound(
            deliver_record(slots, f, partition, offset, item).0,
            deliver_record(slots, f, partition, offset, item).1,
        ),
{
    let d = deliver_record(slots, f, partition, offset, item);
    lemma_find_from(slots, partition, 0);
    match find_slot(slots, partition) {
        None => {},
        Some(j) => {
            if offset >= slots[j].end {
                if sound(slots, f) {
                    assert(slots_wf(d.0)) by {
                        assert forall|a: int, k: int|
                            0 <= a < d.0.len() && 0 <= k < d.0[a].buffer.len() implies in_window(
                            d.0[a],
                            #[trigger] d.0[a].buffer[k],
                        ) by {
                            assert(in_window(slots[a], slots[a].buffer[k]));
                        }
                    }
                    lemma_flight_wf_same_plan(slots, d.0, f);
                }
            } else if offset < slots[j].start {
            } else {
                if sound(slots, f) && waiting(slots, f) && built_from(
                    slots,
                    partition,
                    offset,
                    item,
                ) {
                    assert(in_window(slots[j], item));
                    assert(in_window(d.0[j], item));
                    assert(slots_wf(d.0)) by {
                        assert forall|a: int, k: int|
                            0 <= a < d.0.len() && 0 <= k < d.0[a].buffer.len() implies in_window(
                            d.0[a],
                            #[trigger] d.0[a].buffer[k],
                        ) by {
                            if a == j && k >= slots[a].buffer.len() {
                                assert(d.0[a].buffer[k] == item);
                            } else {
                                assert(in_window(slots[a], slots[a].buffer[k]));
                            }
                        }
                    }
                    assert(flight_wf(d.0, d.1)) by {
                        assert forall|k: int| 0 <= k < d.1.out.len() implies in_plan(
                            d.0,
                            #[trigger] d.1.out[k],
                        ) by {
                            if k < f.out.len() {
                                lemma_in_plan_same_plan(slots, d.0, f.out[k]);
                            } else {
                                assert(d.1.out[k] == item);
                            }
                        }
                    }
                }
            }
        },
    }
}

/// The offsets of a list of buffered records.
pub open spec fn offsets_of(items: Seq<(i64, UiMessage)>) -> Seq<i64> {
    items.map_values(|it: (i64, UiMessage)| it.1.offset)
}

/// The offsets of the records of partition `p` among `out`, in the order of `out`.
pub open spec fn sent(out: Seq<(i64, UiMessage)>, p: i32) -> Seq<i64>
    decreases out.len(),
{
    if out.len() == 0 {
        Seq::empty()
    } else if out.last().1.partition == p {
        sent(out.drop_last(), p).push(out.last().1.offset)
    } else {
        sent(out.drop_last(), p)
    }
}

/// The offsets that partition `p` holds in its buffer, oldest first.
pub open spec fn held(slots: Seq<Slot>, p: i32) -> Seq<i64> {
    match find_slot(slots, p) {
        Some(i) => offsets_of(slots[i].buffer),
        None => Seq::empty(),
    }
}

/// What `sent` gives for a list with one more record.
pub proof fn lemma_sent_push(out: Seq<(i64, UiMessage)>, item: (i64, UiMessage), p: i32)
    ensures
        sent(out.push(item), p) == (if item.1.partition == p {
            sent(out, p).push(item.1.offset)
        } else {
            sent(out, p)
        }),
{
    assert(out.push(item).drop_last() =~= out);
}

/// What `sent` gives for two lists, one after the other.
pub proof fn lemma_sent_concat(a: Seq<(i64, UiMessage)>, b: Seq<(i64, UiMessage)>, p: i32)
    ensures
        sent(a + b, p) == sent(a, p) + sent(b, p),
    decreases b.len(),
{
    if b.len() == 0 {
        assert(a + b =~= a);
        assert(sent(a, p) + sent(b, p) =~= sent(a, p));
    } else {
        lemma_sent_concat(a, b.drop_last(), p);
        assert((a + b).drop_last() =~= a + b.drop_last());
        assert((a + b).last() == b.last());
        if b.last().1.partition == p {
            assert(sent(a, p) + sent(b.drop_last(), p).push(b.last().1.offset) =~= (sent(a, p)
                + sent(b.drop_last(), p)).push(b.last().1.offset));
        }
    }
}

/// An oldest-first batch hands out the records of each partition in the order in which
/// they arrived: what it has handed out, followed by what the partition still holds, stays
/// the same list while the batch runs.
pub proof fn lemma_oldest_keeps_arrival_order(slots: Seq<Slot>, f: Flight, p: i32)
    requires
        slots_wf(slots),
    ensures
        sent(advance_oldest(slots, f).flight.out, p) + held(advance_oldest(slots, f).slots, p)
            == sent(f.out, p) + held(slots, p),
    decreases f.limit - f.out.len(), phase_rank(f.phase),
{
    match f.phase {
        Phase::Fill => {
            lemma_oldest_keeps_arrival_order(slots, Flight { phase: Phase::Merge, ..f }, p);
        },
        Phase::Refill { target, local_idle } => {
            lemma_oldest_keeps_arrival_order(slots, Flight { phase: Phase::Merge, ..f }, p);
        },
        _ => {
            if f.out.len() < f.limit {
                lemma_best_head(slots, slots.len() as int);
                match best_head(slots, slots.len() as int) {
                    None => {},
                    Some(i) => {
                        let x = slots[i].buffer[0];
                        let s2 = pop_head(slots, i);
                        let f2 = Flight {
                            out: f.out.push(x),
                            phase: if slots[i].buffer.len() == 1 {
                                Phase::Refill { target: i as usize, local_idle: 0 }
                            } else {
                                Phase::Merge
                            },
                            ..f
                        };
                        lemma_pop_head_keeps_plan(slots, i);
                        lemma_oldest_keeps_arrival_order(s2, f2, p);
                        lemma_sent_push(f.out, x, p);
                        lemma_find_same_plan(slots, s2, p, 0);
                        lemma_find_from(slots, p, 0);
                        assert(in_window(slots[i], x));
                        if slots[i].partition == p {
                            lemma_find_slot_at(slots, i);
                            assert(offsets_of(s2[i].buffer) =~= offsets_of(
                                slots[i].buffer,
                            ).drop_first());
                            assert(sent(f2.out, p) + held(s2, p) =~= sent(f.out, p) + held(slots, p));
                        } else {
                            assert(held(s2, p) == held(slots, p));
                        }
                    },
                }
            }
        },
    }
}

/// A record that is taken in joins the end of what its partition has handed out and holds;
/// any other record changes nothing of it.
pub proof fn lemma_deliver_arrival(
    slots: Seq<Slot>,
    f: Flight,
    partition: i32,
    offset: i64,
    item: (i64, UiMessage),
    p: i32,
)
    requires
        slots_wf(slots),
        built_from(slots, partition, offset, item),
        f.phase is Sequential ==> super::all_empty(slots),
    ensures
        f.phase is Sequential ==> super::all_empty(
            deliver_record(slots, f, partition, offset, item).0,
        ),
        sent(deliver_record(slots, f, partition, offset, item).1.out, p) + held(
            deliver_record(slots, f, partition, offset, item).0,
            p,
        ) == sent(f.out, p) + held(slots, p) + (if accepted(slots, partition, offset) && partition
            == p {
            seq![offset]
        } else {
            Seq::empty()
        }),
{
    let d = deliver_record(slots, f, partition, offset, item);
    lemma_find_from(slots, partition, 0);
    lemma_find_from(slots, p, 0);
    lemma_deliver_keeps_plan(slots, f, partition, offset, item);
    lemma_find_same_plan(slots, d.0, p, 0);
    let base = sent(f.out, p) + held(slots, p);
    match find_slot(slots, partition) {
        None => {
            assert(base + Seq::<i64>::empty() =~= base);
        },
        Some(j) => {
            if offset >= slots[j].end || offset < slots[j].start {
                assert(held(d.0, p) == held(slots, p)) by {
                    match find_slot(slots, p) {
                        Some(w) => {
                            assert(d.0[w].buffer == slots[w].buffer);
                        },
                        None => {},
                    }
                }
                assert(base + Seq::<i64>::empty() =~= base);
            } else if f.phase is Sequential {
                lemma_sent_push(f.out, item, p);
                assert(held(d.0, p) == held(slots, p)) by {
                    match find_slot(slots, p) {
                        Some(w) => {
                            assert(d.0[w].buffer == slots[w].buffer);
                        },
                        None => {},
                    }
                }
                if partition == p {
                    assert(held(slots, p) =~= Seq::<i64>::empty());
                    assert(sent(d.1.out, p) + held(d.0, p) =~= base + seq![offset]);
                } else {
                    assert(base + Seq::<i64>::empty() =~= base);
                }
            } else {
                if partition == p {
                    assert(offsets_of(d.0[j].buffer) =~= offsets_of(slots[j].buffer).push(offset));
                    assert(sent(d.1.out, p) + held(d.0, p) =~= base + seq![offset]);
                } else {
                    match find_slot(slots, p) {
                        Some(w) => {
                            assert(d.0[w].buffer == slots[w].buffer);
                        },
                        None => {},
                    }
                    assert(base + Seq::<i64>::empty() =~= base);
                }
            }
        },
    }
}

/// A newest-first batch hands out the records of each partition from the newest back: what
/// the partition still holds, followed by what was handed out in reverse, stays the same
/// list while records are handed out.
pub proof fn law_tails_newest_first(
    slots: Seq<Slot>,
    out: Seq<(i64, UiMessage)>,
    limit: usize,
    p: i32,
)
    requires
        slots_wf(slots),
    ensures
        held(emit_tails(slots, out, limit).0, p) + sent(emit_tails(slots, out, limit).1, p).reverse()
            == held(slots, p) + sent(out, p).reverse(),
    decreases limit - out.len(),
{
    if out.len() < limit {
        lemma_best_tail(slots, slots.len() as int);
        match best_tail(slots, slots.len() as int) {
            None => {},
            Some(i) => {
                let x = slots[i].buffer.last();
                let s2 = pop_tail(slots, i);
                let o2 = out.push(x);
                assert(slots_wf(s2)) by {
                    assert forall|a: int, k: int|
                        0 <= a < s2.len() && 0 <= k < s2[a].buffer.len() implies in_window(
                        s2[a],
                        #[trigger] s2[a].buffer[k],
                    ) by {
                        assert(in_window(slots[a], slots[a].buffer[k]));
                    }
                }
                law_tails_newest_first(s2, o2, limit, p);
                lemma_sent_push(out, x, p);
                lemma_find_same_plan(slots, s2, p, 0);
                lemma_find_from(slots, p, 0);
                assert(in_window(slots[i], slots[i].buffer[slots[i].buffer.len() - 1]));
                if slots[i].partition == p {
                    lemma_find_slot_at(slots, i);
                    let h = offsets_of(slots[i].buffer);
                    assert(offsets_of(s2[i].buffer) =~= h.drop_last());
                    let s = sent(out, p);
                    assert(s.push(x.1.offset).reverse() =~= seq![x.1.offset] + s.reverse());
                    assert(h.drop_last() + (seq![x.1.offset] + s.reverse()) =~= h + s.reverse());
                } else {
                    match find_slot(slots, p) {
                        Some(w) => {
                            assert(s2[w].buffer == slots[w].buffer);
                        },
                        None => {},
                    }
                }
            },
        }
    }
}

/// The keys of the records do not fall from one to the next.
pub open spec fn ascending(items: Seq<(i64, UiMessage)>) -> bool {
    forall|a: int, b: int|
        0 <= a < b < items.len() ==> key_le(key_of(#[trigger] items[a]), key_of(#[trigger] items[b]))
}

/// The keys of the records do not rise from one to the next.
pub open spec fn descending(items: Seq<(i64, UiMessage)>) -> bool {
    forall|a: int, b: int|
        0 <= a < b < items.len() ==> key_le(key_of(#[trigger] items[b]), key_of(#[trigger] items[a]))
}

/// Every buffer holds its records in ascending order of their keys.
pub open spec fn buffers_ascending(slots: Seq<Slot>) -> bool {
    forall|i: int| 0 <= i < slots.len() ==> ascending((#[trigger] slots[i]).buffer)
}

/// No record of `out` has a larger key than a buffered record.
pub open spec fn out_below_buffers(slots: Seq<Slot>, out: Seq<(i64, UiMessage)>) -> bool {
    forall|k: int, i: int|
        0 <= k < out.len() && 0 <= i < slots.len() && (#[trigger] slots[i]).buffer.len() > 0
            ==> key_le(key_of(#[trigger] out[k]), key_of(slots[i].buffer[0]))
}

/// No record of `out` has a smaller key than a buffered record.
pub open spec fn out_above_buffers(slots: Seq<Slot>, out: Seq<(i64, UiMessage)>) -> bool {
    forall|k: int, i: int|
        0 <= k < out.len() && 0 <= i < slots.len() && (#[trigger] slots[i]).buffer.len() > 0
            ==> key_le(key_of(slots[i].buffer.last()), key_of(#[trigger] out[k]))
}

/// The state of an oldest-first merge is in order: the buffers ascend, the records handed
/// out ascend, and none of them has a larger key than a record still buffered.
pub open spec fn merge_ordered(slots: Seq<Slot>, out: Seq<(i64, UiMessage)>) -> bool {
    buffers_ascending(slots) && ascending(out) && out_below_buffers(slots, out)
}

/// An oldest-first merge that starts in order stays in order: the records it hands out
/// ascend by time, then partition, then offset.
pub proof fn lemma_oldest_ascending(slots: Seq<Slot>, f: Flight)
    requires
        merge_ordered(slots, f.out),
    ensures
        merge_ordered(advance_oldest(slots, f).slots, advance_oldest(slots, f).flight.out),
    decreases f.limit - f.out.len(), phase_rank(f.phase),
{
    match f.phase {
        Phase::Fill => {
            lemma_oldest_ascending(slots, Flight { phase: Phase::Merge, ..f });
        },
        Phase::Refill { target, local_idle } => {
            lemma_oldest_ascending(slots, Flight { phase: Phase::Merge, ..f });
        },
        _ => {
            if f.out.len() < f.limit {
                lemma_best_head(slots, slots.len() as int);
                match best_head(slots, slots.len() as int) {
                    None => {},
                    Some(i) => {
                        let x = slots[i].buffer[0];
                        let s2 = pop_head(slots, i);
                        let f2 = Flight {
                            out: f.out.push(x),
                            phase: if slots[i].buffer.len() == 1 {
                                Phase::Refill { target: i as usize, local_idle: 0 }
                            } else {
                                Phase::Merge
                            },
                            ..f
                        };
                        assert(buffers_ascending(s2)) by {
                            assert forall|a: int| 0 <= a < s2.len() implies ascending(
                                (#[trigger] s2[a]).buffer,
                            ) by {
                                assert(ascending(slots[a].buffer));
                                if a == i {
                                    assert forall|u: int, v: int|
                                        0 <= u < v < s2[a].buffer.len() implies key_le(
                                        key_of(#[trigger] s2[a].buffer[u]),
                                        key_of(#[trigger] s2[a].buffer[v]),
                                    ) by {
                                        assert(s2[a].buffer[u] == slots[a].buffer[u + 1]);
                                        assert(s2[a].buffer[v] == slots[a].buffer[v + 1]);
                                    }
                                }
                            }
                        }
                        assert(ascending(f2.out)) by {
                            assert forall|u: int, v: int| 0 <= u < v < f2.out.len() implies key_le(
                                key_of(#[trigger] f2.out[u]),
                                key_of(#[trigger] f2.out[v]),
                            ) by {
                                if v < f.out.len() {
                                    assert(f2.out[u] == f.out[u] && f2.out[v] == f.out[v]);
                                } else {
                                    assert(f2.out[u] == f.out[u]);
                                    assert(slots[i].buffer.len() > 0);
                                }
                            }
                        }
                        assert(out_below_buffers(s2, f2.out)) by {
                            assert forall|k: int, a: int|
                                0 <= k < f2.out.len() && 0 <= a < s2.len() && (
                                #[trigger] s2[a]).buffer.len() > 0 implies key_le(
                                key_of(#[trigger] f2.out[k]),
                                key_of(s2[a].buffer[0]),
                            ) by {
                                assert(slots[a].buffer.len() > 0);
                                assert(key_le(key_of(x), key_of(slots[a].buffer[0])));
                                if a == i {
                                    assert(ascending(slots[a].buffer));
                                    assert(s2[a].buffer[0] == slots[a].buffer[1]);
                                    assert(key_le(
                                        key_of(slots[a].buffer[0]),
                                        key_of(slots[a].buffer[1]),
                                    ));
                                }
                                if k < f.out.len() {
                                    assert(f2.out[k] == f.out[k]);
                                    assert(key_le(key_of(f.out[k]), key_of(x)));
                                }
                            }
                        }
                        lemma_oldest_ascending(s2, f2);
                    },
                }
            }
        },
    }
}

/// Handing out the newest records of buffers that ascend gives records that descend by
/// time, then partition, then offset.
pub proof fn lemma_tails_descending(slots: Seq<Slot>, out: Seq<(i64, UiMessage)>, limit: usize)
    requires
        buffers_ascending(slots),
        descending(out),
        out_above_buffers(slots, out),
    ensures
        buffers_ascending(emit_tails(slots, out, limit).0),
        descending(emit_tails(slots, out, limit).1),
        out_above_buffers(emit_tails(slots, out, limit).0, emit_tails(slots, out, limit).1),
    decreases limit - out.len(),
{
    if out.len() < limit {
        lemma_best_tail(slots, slots.len() as int);
        match best_tail(slots, slots.len() as int) {
            None => {},
            Some(i) => {
                let x = slots[i].buffer.last();
                let s2 = pop_tail(slots, i);
                let o2 = out.push(x);
                assert(buffers_ascending(s2)) by {
                    assert forall|a: int| 0 <= a < s2.len() implies ascending(
                        (#[trigger] s2[a]).buffer,
                    ) by {
                        assert(ascending(slots[a].buffer));
                        if a == i {
                            assert forall|u: int, v: int|
                                0 <= u < v < s2[a].buffer.len() implies key_le(
                                key_of(#[trigger] s2[a].buffer[u]),
                                key_of(#[trigger] s2[a].buffer[v]),
                            ) by {
                                assert(s2[a].buffer[u] == slots[a].buffer[u]);
                                assert(s2[a].buffer[v] == slots[a].buffer[v]);
                            }
                        }
                    }
                }
                assert(descending(o2)) by {
                    assert forall|u: int, v: int| 0 <= u < v < o2.len() implies key_le(
                        key_of(#[trigger] o2[v]),
                        key_of(#[trigger] o2[u]),
                    ) by {
                        if v < out.len() {
                            assert(o2[u] == out[u] && o2[v] == out[v]);
                        } else {
                            assert(o2[u] == out[u]);
                            assert(slots[i].buffer.len() > 0);
                        }
                    }
                }
                assert(out_above_buffers(s2, o2)) by {
                    assert forall|k: int, a: int|
                        0 <= k < o2.len() && 0 <= a < s2.len() && (#[trigger] s2[a]).buffer.len()
                            > 0 implies key_le(
                        key_of(s2[a].buffer.last()),
                        key_of(#[trigger] o2[k]),
                    ) by {
                        assert(slots[a].buffer.len() > 0);
                        assert(key_le(key_of(slots[a].buffer.last()), key_of(x)));
                        if a == i {
                            assert(ascending(slots[a].buffer));
                            let n = slots[a].buffer.len() as int;
                            assert(s2[a].buffer.last() == slots[a].buffer[n - 2]);
                            assert(key_le(
                                key_of(slots[a].buffer[n - 2]),
                                key_of(slots[a].buffer[n - 1]),
                            ));
                        }
                        if k < out.len() {
                            assert(o2[k] == out[k]);
                            assert(key_le(key_of(x), key_of(out[k])));
                        }
                    }
                }
                lemma_tails_descending(s2, o2, limit);
            },
        }
    }
}

/// A record arrives in order: its key is not smaller than that of the newest record that
/// its partition buffers, nor than that of any record already handed out.
pub open spec fn arrives_in_order(
    slots: Seq<Slot>,
    out: Seq<(i64, UiMessage)>,
    partition: i32,
    item: (i64, UiMessage),
) -> bool {
    &&& forall|k: int| 0 <= k < out.len() ==> key_le(key_of(#[trigger] out[k]), key_of(item))
    &&& match find_slot(slots, partition) {
        Some(j) => slots[j].buffer.len() > 0 ==> key_le(
            key_of(slots[j].buffer.last()),
            key_of(item),
        ),
        None => true,
    }
}

/// Taking in a record that arrives in order keeps an oldest-first merge in order, and keeps
/// the buffers ascending in either direction.
pub proof fn lemma_deliver_ordered(
    slots: Seq<Slot>,
    f: Flight,
    partition: i32,
    offset: i64,
    item: (i64, UiMessage),
)
    requires
        buffers_ascending(slots),
        arrives_in_order(slots, f.out, partition, item),
        f.phase is Sequential ==> super::all_empty(slots),
    ensures
        buffers_ascending(deliver_record(slots, f, partition, offset, item).0),
        merge_ordered(slots, f.out) ==> merge_ordered(
            deliver_record(slots, f, partition, offset, item).0,
            deliver_record(slots, f, partition, offset, item).1.out,
        ),
{
    let d = deliver_record(slots, f, partition, offset, item);
    lemma_find_from(slots, partition, 0);
    match find_slot(slots, partition) {
        None => {},
        Some(j) => {
            assert(buffers_ascending(d.0)) by {
                assert forall|a: int| 0 <= a < d.0.len() implies ascending(
                    (#[trigger] d.0[a]).buffer,
                ) by {
                    assert(ascending(slots[a].buffer));
                    if a == j && d.0[a].buffer.len() > slots[a].buffer.len() {
                        let n = slots[a].buffer.len() as int;
                        assert forall|u: int, v: int|
                            0 <= u < v < d.0[a].buffer.len() implies key_le(
                            key_of(#[trigger] d.0[a].buffer[u]),
                            key_of(#[trigger] d.0[a].buffer[v]),
                        ) by {
                            if v < n {
                                assert(d.0[a].buffer[u] == slots[a].buffer[u]);
                                assert(d.0[a].buffer[v] == slots[a].buffer[v]);
                            } else {
                                assert(d.0[a].buffer[u] == slots[a].buffer[u]);
                                assert(d.0[a].buffer[v] == item);
                                if u < n - 1 {
                                    assert(key_le(
                                        key_of(slots[a].buffer[u]),
                                        key_of(slots[a].buffer[n - 1]),
                                    ));
                                }
                            }
                        }
                    }
                }
            }
            if merge_ordered(slots, f.out) {
                assert(ascending(d.1.out)) by {
                    assert forall|u: int, v: int| 0 <= u < v < d.1.out.len() implies key_le(
                        key_of(#[trigger] d.1.out[u]),
                        key_of(#[trigger] d.1.out[v]),
                    ) by {
                        if v < f.out.len() {
                            assert(d.1.out[u] == f.out[u] && d.1.out[v] == f.out[v]);
                        } else {
                            assert(d.1.out[u] == f.out[u]);
                            assert(d.1.out[v] == item);
                        }
                    }
                }
                assert(out_below_buffers(d.0, d.1.out)) by {
                    assert forall|k: int, a: int|
                        0 <= k < d.1.out.len() && 0 <= a < d.0.len() && (
                        #[trigger] d.0[a]).buffer.len() > 0 implies key_le(
                        key_of(#[trigger] d.1.out[k]),
                        key_of(d.0[a].buffer[0]),
                    ) by {
                        if slots[a].buffer.len() > 0 {
                            assert(d.0[a].buffer[0] == slots[a].buffer[0]);
                            if k < f.out.len() {
                                assert(d.1.out[k] == f.out[k]);
                            } else {
                                assert(f.phase is Sequential);
                            }
                        } else {
                            assert(a == j);
                            assert(d.0[a].buffer[0] == item);
                            assert(d.1.out == f.out);
                        }
                    }
                }
            }
        },
    }
}

/// A record that is not taken in changes neither a buffer nor what was handed out.
pub proof fn lemma_deliver_rejected(
    slots: Seq<Slot>,
    f: Flight,
    partition: i32,
    offset: i64,
    item: (i64, UiMessage),
)
    requires
        !accepted(slots, partition, offset),
    ensures
        deliver_record(slots, f, partition, offset, item).1.out == f.out,
        deliver_record(slots, f, partition, offset, item).0.len() == slots.len(),
        forall|i: int|
            0 <= i < slots.len() ==> (#[trigger] deliver_record(
                slots,
                f,
                partition,
                offset,
                item,
            ).0[i]).buffer == slots[i].buffer,
{
    lemma_find_from(slots, partition, 0);
}

/// A record of the plan is one whose message is.
pub proof fn lemma_message_in_plan(slots: Seq<Slot>, item: (i64, UiMessage))
    ensures
        in_plan(slots, item) == message_in_plan(slots, item.1),
{
    if in_plan(slots, item) {
        let i = choose|i: int| 0 <= i < slots.len() && in_window(#[trigger] slots[i], item);
        assert(item.1.partition == slots[i].partition);
    }
    if message_in_plan(slots, item.1) {
        let i = choose|i: int|
            0 <= i < slots.len() && item.1.partition == (#[trigger] slots[i]).partition
                && slots[i].start <= item.1.offset < slots[i].end;
        assert(in_window(slots[i], item));
    }
}

/// An oldest-first batch is calm: it has run without giving up on a partition, so every
/// partition that is not done holds a record, but for the one whose last record was handed
/// out just now and which the batch waits for; and while the batch still fills the heads,
/// it has handed out nothing.
pub open spec fn calm(slots: Seq<Slot>, f: Flight) -> bool {
    match f.phase {
        Phase::Fill => f.out.len() == 0,
        Phase::Refill { target, local_idle } => {
            &&& f.out.len() > 0
            &&& target < slots.len()
            &&& f.out.last().1.partition == slots[target as int].partition
            &&& forall|q: int|
                0 <= q < slots.len() && q != target && !(#[trigger] slots[q]).done
                    ==> slots[q].buffer.len() > 0
        },
        Phase::Merge => !super::needs_head(slots),
        _ => true,
    }
}

/// The batch does not give up on a partition where it stands: the idle polls of filling
/// are not used up while a partition that is not done has no head, nor those of a refill
/// while its partition is neither done nor has a head.
pub open spec fn timely(slots: Seq<Slot>, f: Flight) -> bool {
    match f.phase {
        Phase::Fill => !super::needs_head(slots) || f.idle < super::IDLE_LIMIT_FILL,
        Phase::Refill { target, local_idle } => local_idle < super::IDLE_LIMIT_REFILL || target
            >= slots.len() || slots[target as int].done || slots[target as int].buffer.len() > 0,
        _ => true,
    }
}

/// The record rises within its partition: the partition is not done, as it is while its
/// offsets rise, and the key of the record is not smaller than that of the newest record
/// that the partition buffers or, where it buffers none, than that of any record of the
/// partition that the batch has handed out.
pub open spec fn rising(
    slots: Seq<Slot>,
    out: Seq<(i64, UiMessage)>,
    partition: i32,
    item: (i64, UiMessage),
) -> bool {
    match find_slot(slots, partition) {
        Some(j) => {
            &&& !slots[j].done
            &&& if slots[j].buffer.len() > 0 {
                key_le(key_of(slots[j].buffer.last()), key_of(item))
            } else {
                forall|k: int|
                    0 <= k < out.len() && (#[trigger] out[k]).1.partition == partition ==> key_le(
                        key_of(out[k]),
                        key_of(item),
                    )
            }
        },
        None => true,
    }
}

/// An oldest-first batch that is calm and does not give up where it stands is calm again
/// at its next poll or at its end.
pub proof fn lemma_oldest_stays_calm(slots: Seq<Slot>, f: Flight)
    requires
        slots_wf(slots),
        slots.len() <= usize::MAX,
        calm(slots, f),
        timely(slots, f),
        !(f.phase is Sequential),
        !(f.phase is Drain),
    ensures
        calm(advance_oldest(slots, f).slots, advance_oldest(slots, f).flight),
    decreases f.limit - f.out.len(), phase_rank(f.phase),
{
    match f.phase {
        Phase::Fill => {
            if !super::needs_head(slots) || f.idle >= super::IDLE_LIMIT_FILL {
                lemma_oldest_stays_calm(slots, Flight { phase: Phase::Merge, ..f });
            }
        },
        Phase::Refill { target, local_idle } => {
            if super::merge_oldest::refill_over(slots, target, local_idle) {
                assert(!super::needs_head(slots)) by {
                    if super::needs_head(slots) {
                        let q = choose|q: int|
                            0 <= q < slots.len() && !(#[trigger] slots[q]).done
                                && slots[q].buffer.len() == 0;
                        assert(q != target);
                    }
                }
                lemma_oldest_stays_calm(slots, Flight { phase: Phase::Merge, ..f });
            }
        },
        _ => {
            if f.out.len() < f.limit {
                lemma_best_head(slots, slots.len() as int);
                match best_head(slots, slots.len() as int) {
                    None => {},
                    Some(i) => {
                        let x = slots[i].buffer[0];
                        let s2 = pop_head(slots, i);
                        let f2 = Flight {
                            out: f.out.push(x),
                            phase: if slots[i].buffer.len() == 1 {
                                Phase::Refill { target: i as usize, local_idle: 0 }
                            } else {
                                Phase::Merge
                            },
                            ..f
                        };
                        lemma_pop_head_keeps_plan(slots, i);
                        assert(in_window(slots[i], x));
                        assert forall|q: int| 0 <= q < s2.len() && q != i implies s2[q]
                            == slots[q] by {}
                        if slots[i].buffer.len() == 1 {
                            assert(f2.out.last() == x);
                            assert forall|q: int|
                                0 <= q < s2.len() && q != i && !(#[trigger] s2[q]).done implies s2[q].buffer.len()
                                > 0 by {
                                assert(s2[q] == slots[q]);
                                if slots[q].buffer.len() == 0 {
                                    assert(super::needs_head(slots));
                                }
                            }
                        } else {
                            assert(!super::needs_head(s2)) by {
                                if super::needs_head(s2) {
                                    let q = choose|q: int|
                                        0 <= q < s2.len() && !(#[trigger] s2[q]).done
                                            && s2[q].buffer.len() == 0;
                                    assert(q != i);
                                    assert(s2[q] == slots[q]);
                                    assert(super::needs_head(slots));
                                }
                            }
                        }
                        lemma_oldest_stays_calm(s2, f2);
                    },
                }
            }
        },
    }
}

/// Taking in a record leaves a calm batch calm.
pub proof fn lemma_record_stays_calm(
    slots: Seq<Slot>,
    f: Flight,
    partition: i32,
    offset: i64,
    item: (i64, UiMessage),
)
    requires
        calm(slots, f),
        !(f.phase is Sequential),
    ensures
        calm(
            deliver_record(slots, f, partition, offset, item).0,
            deliver_record(slots, f, partition, offset, item).1,
        ),
{
    let d = deliver_record(slots, f, partition, offset, item);
    lemma_find_from(slots, partition, 0);
    assert(d.0.len() == slots.len());
    assert forall|q: int| 0 <= q < slots.len() implies (#[trigger] d.0[q]).partition
        == slots[q].partition && d.0[q].buffer.len() >= slots[q].buffer.len() && (slots[q].done
        ==> d.0[q].done) by {}
    match f.phase {
        Phase::Merge => {
            if super::needs_head(d.0) {
                let q = choose|q: int|
                    0 <= q < d.0.len() && !(#[trigger] d.0[q]).done && d.0[q].buffer.len() == 0;
                assert(!slots[q].done && slots[q].buffer.len() == 0);
                assert(super::needs_head(slots));
            }
        },
        Phase::Refill { target, local_idle } => {
            assert forall|q: int|
                0 <= q < d.0.len() && q != target && !(#[trigger] d.0[q]).done implies d.0[q].buffer.len()
                > 0 by {
                assert(!slots[q].done);
            }
        },
        _ => {},
    }
}

/// In a calm batch whose state is in order, a record that rises within its partition
/// arrives in order: no record that was handed out has a larger key.
pub proof fn lemma_rising_arrives_in_order(
    slots: Seq<Slot>,
    f: Flight,
    partition: i32,
    item: (i64, UiMessage),
)
    requires
        merge_ordered(slots, f.out),
        calm(slots, f),
        f.phase is Fill || f.phase is Merge || f.phase is Refill,
        find_slot(slots, partition) is Some,
        rising(slots, f.out, partition, item),
    ensures
        arrives_in_order(slots, f.out, partition, item),
{
    lemma_find_from(slots, partition, 0);
    let j = find_slot(slots, partition)->0;
    if slots[j].buffer.len() > 0 {
        let buffer = slots[j].buffer;
        assert(ascending(buffer));
        assert(key_le(key_of(buffer[0]), key_of(buffer.last()))) by {
            if buffer.len() > 1 {
                assert(key_le(key_of(buffer[0]), key_of(buffer[buffer.len() - 1])));
            }
        }
        assert forall|k: int| 0 <= k < f.out.len() implies key_le(
            key_of(#[trigger] f.out[k]),
            key_of(item),
        ) by {
            assert(key_le(key_of(f.out[k]), key_of(slots[j].buffer[0])));
        }
    } else if f.out.len() > 0 {
        match f.phase {
            Phase::Refill { target, local_idle } => {
                assert(j == target);
                let last = f.out.last();
                assert(last == f.out[f.out.len() - 1]);
                assert(key_le(key_of(last), key_of(item)));
                assert forall|k: int| 0 <= k < f.out.len() implies key_le(
                    key_of(#[trigger] f.out[k]),
                    key_of(item),
                ) by {
                    if k < f.out.len() - 1 {
                        assert(key_le(key_of(f.out[k]), key_of(f.out[f.out.len() - 1])));
                    }
                }
            },
            Phase::Merge => {
                assert(super::needs_head(slots));
            },
            _ => {},
        }
    }
}

} // verus!
