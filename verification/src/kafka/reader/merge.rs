use vstd::prelude::*;
use super::merge_newest::{advance_newest, consume_merge_newest};
use super::merge_oldest::{advance_oldest, consume_merge_oldest};
use super::{slots_of, Advance, Batch, Flight, PartitionState, Phase, Slot};

verus! {

/// A merging batch where it stands: newest first while it drains, oldest first otherwise.
pub open spec fn advance_merge(slots: Seq<Slot>, f: Flight) -> Advance {
    if f.phase is Drain {
        advance_newest(slots, f)
    } else {
        advance_oldest(slots, f)
    }
}

/// Runs a merging batch up to its next poll or to its end, by the direction it was begun in.
pub fn consume_merge(parts: &mut Vec<PartitionState>, batch: &mut Batch) -> (finished: bool)
    ensures
        finished == advance_merge(slots_of(old(parts)@), old(batch)@).finished,
        slots_of(final(parts)@) == advance_merge(slots_of(old(parts)@), old(batch)@).slots,
        final(batch)@ == advance_merge(slots_of(old(parts)@), old(batch)@).flight,
{
    match batch.phase {
        Phase::Drain => consume_merge_newest(parts, batch),
        _ => consume_merge_oldest(parts, batch),
    }
}

} // verus!
