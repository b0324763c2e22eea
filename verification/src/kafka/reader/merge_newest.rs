use vstd::prelude::*;
use super::super::types::UiMessage;
use super::{
    all_done, every_partition_done, key_lt, key_of, pop_tail, slots_of, Advance, Batch, Flight,
    PartitionState, Slot, IDLE_LIMIT_DRAIN,
};

verus! {

/// Among the first `n` slots, the one whose newest buffered record has the largest key; the
/// first of them where several do. `None` when none of them holds a record.
pub open spec fn best_tail(slots: Seq<Slot>, n: int) -> Option<int>
    decreases n,
{
    if n <= 0 {
        None
    } else if slots[n - 1].buffer.len() == 0 {
        best_tail(slots, n - 1)
    } else {
        match best_tail(slots, n - 1) {
            None => Some(n - 1),
            Some(j) => if key_lt(key_of(slots[j].buffer.last()), key_of(slots[n - 1].buffer.last())) {
                Some(n - 1)
            } else {
                Some(j)
            },
        }
    }
}

/// Hands out the record with the largest key among the newest of each buffer, again and
/// again, until `out` holds `limit` records or every buffer is empty.
pub open spec fn emit_tails(slots: Seq<Slot>, out: Seq<(i64, UiMessage)>, limit: usize) -> (
    Seq<Slot>,
    Seq<(i64, UiMessage)>,
)
    decreases limit - out.len(),
{
    if out.len() >= limit {
        (slots, out)
    } else {
        match best_tail(slots, slots.len() as int) {
            None => (slots, out),
            Some(i) => emit_tails(pop_tail(slots, i), out.push(slots[i].buffer.last()), limit),
        }
    }
}

/// A newest-first batch where it stands: it asks for polls until every partition is done or
/// the idle polls are used up, then hands out the newest records and ends.
pub open spec fn advance_newest(slots: Seq<Slot>, f: Flight) -> Advance {
    if all_done(slots) || f.idle >= IDLE_LIMIT_DRAIN {
        let r = emit_tails(slots, f.out, f.limit);
        Advance { slots: r.0, flight: Flight { out: r.1, ..f }, finished: true }
    } else {
        Advance { slots, flight: f, finished: false }
    }
}

/// Finds the partition whose newest buffered record has the largest key.
pub fn pick_tail(parts: &Vec<PartitionState>) -> (r: Option<usize>)
    ensures
        match r {
            Some(i) => best_tail(slots_of(parts@), parts.len() as int) == Some(i as int)
                && i < parts.len() && parts[i as int].buffer@.len() > 0,
            None => best_tail(slots_of(parts@), parts.len() as int) is None,
        },
{
    let mut best: Option<usize> = None;
    let mut i: usize = 0;
    while i < parts.len()
        invariant
            i <= parts.len(),
            match best {
                Some(j) => best_tail(slots_of(parts@), i as int) == Some(j as int) && j < i
                    && parts[j as int].buffer@.len() > 0,
                None => best_tail(slots_of(parts@), i as int) is None,
            },
        decreases parts.len() - i,
    {
        let n: usize = parts[i].buffer.len();
        if n > 0 {
            match best {
                None => {
                    best = Some(i);
                },
                Some(j) => {
                    let m: usize = parts[j].buffer.len();
                    let a = &parts[j].buffer[m - 1];
                    let b = &parts[i].buffer[n - 1];
                    let less: bool = a.0 < b.0 || (a.0 == b.0 && (a.1.partition < b.1.partition || (
                    a.1.partition == b.1.partition && a.1.offset < b.1.offset)));
                    if less {
                        best = Some(i);
                    }
                },
            }
        }
        i += 1;
    }
    best
}

/// Runs a newest-first batch up to its next poll or to its end. Returns whether it ended;
/// the records it hands out are then in `batch.out`, newest first.
pub fn consume_merge_newest(parts: &mut Vec<PartitionState>, batch: &mut Batch) -> (finished: bool)
    ensures
        finished == advance_newest(slots_of(old(parts)@), old(batch)@).finished,
        slots_of(final(parts)@) == advance_newest(slots_of(old(parts)@), old(batch)@).slots,
        final(batch)@ == advance_newest(slots_of(old(parts)@), old(batch)@).flight,
{
    if !(every_partition_done(parts) || batch.idle >= IDLE_LIMIT_DRAIN) {
        return false;
    }
    let ghost slots0 = slots_of(parts@);
    let ghost flight0 = batch@;
    let mut more: bool = true;
    while more && batch.out.len() < batch.limit
        invariant
            emit_tails(slots_of(parts@), batch@.out, batch@.limit) == emit_tails(
                slots0,
                flight0.out,
                flight0.limit,
            ),
            batch@ == (Flight { out: batch@.out, ..flight0 }),
            !more ==> best_tail(slots_of(parts@), parts.len() as int) is None,
        decreases batch.limit - batch.out.len(), more as int,
    {
        match pick_tail(parts) {
            None => {
                more = false;
            },
            Some(i) => {
                let ghost before = slots_of(parts@);
                match parts[i].buffer.pop_back() {
                    Some(item) => {
                        assert(slots_of(parts@) =~= pop_tail(before, i as int));
                        batch.out.push(item);
                    },
                    None => {},
                }
            },
        }
    }
    assert(emit_tails(slots_of(parts@), batch@.out, batch@.limit) == (
        slots_of(parts@),
        batch@.out,
    ));
    true
}

} // verus!
