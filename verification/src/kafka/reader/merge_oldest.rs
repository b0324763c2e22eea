use vstd::prelude::*;
use super::{
    all_done, every_partition_done, key_lt, key_of, needs_head, phase_rank, pop_head, slots_of,
    some_head_missing, Advance, Batch, Flight, PartitionState, Phase, Slot, IDLE_LIMIT_BATCH,
    IDLE_LIMIT_FILL, IDLE_LIMIT_REFILL,
};

verus! {

/// Among the first `n` slots, the one whose oldest buffered record has the smallest key; the
/// first of them where several do. `None` when none of them holds a record.
pub open spec fn best_head(slots: Seq<Slot>, n: int) -> Option<int>
    decreases n,
{
    if n <= 0 {
        None
    } else if slots[n - 1].buffer.len() == 0 {
        best_head(slots, n - 1)
    } else {
        match best_head(slots, n - 1) {
            None => Some(n - 1),
            Some(j) => if key_lt(key_of(slots[n - 1].buffer[0]), key_of(slots[j].buffer[0])) {
                Some(n - 1)
            } else {
                Some(j)
            },
        }
    }
}

/// The refill that a batch waits for has come to its end: its partition is done or has a
/// head again, or the idle polls of the refill are used up.
pub open spec fn refill_over(slots: Seq<Slot>, target: usize, local_idle: u32) -> bool {
    target >= slots.len() || slots[target as int].done || slots[target as int].buffer.len() > 0
        || local_idle >= IDLE_LIMIT_REFILL
}

/// An oldest-first batch run from where it stands up to its next poll or to its end.
///
/// While filling, it asks for polls until every partition that is not done has a head, or
/// the idle polls are used up. While merging, it hands out the smallest head; when that
/// empties a buffer it waits for this partition; when no buffer holds a record it ends if
/// every partition is done or the idle polls are used up, and asks for a poll otherwise.
pub open spec fn advance_oldest(slots: Seq<Slot>, f: Flight) -> Advance
    decreases f.limit - f.out.len(), phase_rank(f.phase),
{
    match f.phase {
        Phase::Fill => if !needs_head(slots) || f.idle >= IDLE_LIMIT_FILL {
            advance_oldest(slots, Flight { phase: Phase::Merge, ..f })
        } else {
            Advance { slots, flight: f, finished: false }
        },
        Phase::Refill { target, local_idle } => if refill_over(slots, target, local_idle) {
            advance_oldest(slots, Flight { phase: Phase::Merge, ..f })
        } else {
            Advance { slots, flight: f, finished: false }
        },
        _ => if f.out.len() >= f.limit {
            Advance { slots, flight: f, finished: true }
        } else {
            match best_head(slots, slots.len() as int) {
                None => Advance {
                    slots,
                    flight: f,
                    finished: all_done(slots) || f.idle >= IDLE_LIMIT_BATCH,
                },
                Some(i) => advance_oldest(
                    pop_head(slots, i),
                    Flight {
                        out: f.out.push(slots[i].buffer[0]),
                        phase: if slots[i].buffer.len() == 1 {
                            Phase::Refill { target: i as usize, local_idle: 0 }
                        } else {
                            Phase::Merge
                        },
                        ..f
                    },
                ),
            }
        },
    }
}

/// Finds the partition whose oldest buffered record has the smallest key.
pub fn pick_head(parts: &Vec<PartitionState>) -> (r: Option<usize>)
    ensures
        match r {
            Some(i) => best_head(slots_of(parts@), parts.len() as int) == Some(i as int)
                && i < parts.len() && parts[i as int].buffer@.len() > 0,
            None => best_head(slots_of(parts@), parts.len() as int) is None,
        },
{
    let mut best: Option<usize> = None;
    let mut i: usize = 0;
    while i < parts.len()
        invariant
            i <= parts.len(),
            match best {
                Some(j) => best_head(slots_of(parts@), i as int) == Some(j as int) && j < i
                    && parts[j as int].buffer@.len() > 0,
                None => best_head(slots_of(parts@), i as int) is None,
            },
        decreases parts.len() - i,
    {
        if parts[i].buffer.len() > 0 {
            match best {
                None => {
                    best = Some(i);
                },
                Some(j) => {
                    let a = &parts[i].buffer[0];
                    let b = &parts[j].buffer[0];
                    let less: bool = a.0 < b.0 || (a.0 == b.0 && (a.1.partition < b.1.partition || (
                    a.1.partition == b.1.partition && a.1.offset < b.1.offset)));
                    if less {
                        best = Some(i);
                    }
                },
            }
        }
        i += 1;
    }
    best
}

/// Runs an oldest-first batch up to its next poll or to its end. Returns whether it ended;
/// the records it hands out are then in `batch.out`, oldest first.
pub fn consume_merge_oldest(parts: &mut Vec<PartitionState>, batch: &mut Batch) -> (finished: bool)
    ensures
        finished == advance_oldest(slots_of(old(parts)@), old(batch)@).finished,
        slots_of(final(parts)@) == advance_oldest(slots_of(old(parts)@), old(batch)@).slots,
        final(batch)@ == advance_oldest(slots_of(old(parts)@), old(batch)@).flight,
{
    let ghost goal = advance_oldest(slots_of(parts@), batch@);
    loop
        invariant
            advance_oldest(slots_of(parts@), batch@) == goal,
            goal == advance_oldest(slots_of(old(parts)@), old(batch)@),
        decreases batch.limit - batch.out.len(), phase_rank(batch.phase),
    {
        match batch.phase {
            Phase::Fill => {
                if !some_head_missing(parts) || batch.idle >= IDLE_LIMIT_FILL {
                    batch.phase = Phase::Merge;
                } else {
                    return false;
                }
            },
            Phase::Refill { target, local_idle } => {
                let over: bool = target >= parts.len() || parts[target].done
                    || parts[target].buffer.len() > 0 || local_idle >= IDLE_LIMIT_REFILL;
                assert(over == refill_over(slots_of(parts@), target, local_idle));
                if over {
                    batch.phase = Phase::Merge;
                } else {
                    return false;
                }
            },
            _ => {
                if batch.out.len() >= batch.limit {
                    return true;
                }
                match pick_head(parts) {
                    None => {
                        return every_partition_done(parts) || batch.idle >= IDLE_LIMIT_BATCH;
                    },
                    Some(i) => {
                        let ghost before = slots_of(parts@);
                        match parts[i].buffer.pop_front() {
                            Some(item) => {
                                assert(slots_of(parts@) =~= pop_head(before, i as int));
                                batch.out.push(item);
                                if parts[i].buffer.len() == 0 {
                                    batch.phase = Phase::Refill { target: i, local_idle: 0 };
                                } else {
                                    batch.phase = Phase::Merge;
                                }
                            },
                            None => {},
                        }
                    },
                }
            },
        }
    }
}

} // verus!
