use vstd::prelude::*;
use super::{
    all_done, every_partition_done, slots_of, Advance, Batch, Flight, PartitionState, Slot,
    IDLE_LIMIT_BATCH,
};

verus! {

/// A sequential batch where it stands: it ends once every partition is done, the limit is
/// reached, or as many polls in a row were idle as the budget allows; else it asks for a
/// poll.
pub open spec fn advance_sequential(slots: Seq<Slot>, f: Flight) -> Advance {
    Advance {
        slots,
        flight: f,
        finished: all_done(slots) || f.out.len() >= f.limit || f.idle >= IDLE_LIMIT_BATCH,
    }
}

/// Decides whether a sequential batch is complete. Records are handed out in the order in
/// which the source delivers them.
pub fn consume_sequential(parts: &Vec<PartitionState>, batch: &Batch) -> (finished: bool)
    ensures
        finished == advance_sequential(slots_of(parts@), batch@).finished,
{
    every_partition_done(parts) || batch.out.len() >= batch.limit || batch.idle >= IDLE_LIMIT_BATCH
}

} // verus!
