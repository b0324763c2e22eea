use vstd::prelude::*;
use vstd::multiset::Multiset;
use super::reader::laws::{
    accepted, arrives_in_order, ascending, buffers_ascending, built_from, descending, done_grows,
    flight_wf, held, in_plan, lemma_advance_keeps_plan, lemma_advance_waits,
    lemma_deliver_arrival, lemma_deliver_keeps_plan, lemma_deliver_ordered,
    lemma_deliver_rejected, lemma_find_from, lemma_find_same_plan, lemma_in_plan_same_plan,
    lemma_oldest_ascending, lemma_oldest_keeps_arrival_order, lemma_oldest_waits,
    calm, law_tails_newest_first, lemma_oldest_stays_calm, lemma_record_stays_calm,
    lemma_rising_arrives_in_order, lemma_sent_concat, lemma_tails_descending, merge_ordered,
    rising, same_plan, sent, slots_wf, sound, timely, waiting,
};
use super::reader::merge_oldest::advance_oldest;
use super::reader::{
    advance, all_done, all_empty, find_slot, key_le, key_of, new_flight, Flight, Phase, PollEvent,
    Slot, IDLE_LIMIT_DRAIN,
};
use super::service::{begun, delivered, law_record_id_tells_the_record, stepped, Engine};
use super::types::UiMessage;

verus! {

/// One call on the reader: the beginning of a batch, or the result of a poll together with
/// the record that was built from it.
pub enum Input {
    Begin(usize),
    Polled(PollEvent, (i64, UiMessage)),
}

/// The reading state after one call, and the batch as it ended, if the call ended one.
pub open spec fn after(e: Engine, input: Input) -> (Engine, Option<Flight>) {
    match input {
        Input::Begin(limit) => begun(e, limit),
        Input::Polled(event, item) => stepped(e, event, item),
    }
}

/// The records of a batch that ended; none where no batch ended.
pub open spec fn handed_out(f: Option<Flight>) -> Seq<(i64, UiMessage)> {
    match f {
        Some(f) => f.out,
        None => Seq::empty(),
    }
}

/// The reading state after a run of calls, and all records that the batches ended in the
/// run handed out, in order.
pub open spec fn run(e: Engine, inputs: Seq<Input>) -> (Engine, Seq<(i64, UiMessage)>)
    decreases inputs.len(),
{
    if inputs.len() == 0 {
        (e, Seq::empty())
    } else {
        let r = run(e, inputs.drop_last());
        let s = after(r.0, inputs.last());
        (s.0, r.1 + handed_out(s.1))
    }
}

/// The direction and shape of the batch in progress fit the plan: newest first while
/// draining, in order of arrival for a plan of at most one partition.
pub open spec fn phase_fits(e: Engine, f: Flight) -> bool {
    &&& f.phase is Drain <==> e.newest
    &&& f.phase is Sequential <==> !e.newest && e.slots.len() <= 1
}

/// The reading state is sound: the plan is, the batch in progress is and waits for a poll,
/// a plan that is read in order of arrival buffers nothing, and without a plan there is
/// neither a partition nor a batch.
pub open spec fn engine_wf(e: Engine) -> bool {
    &&& slots_wf(e.slots)
    &&& !e.assigned ==> e.slots.len() == 0 && e.flight is None
    &&& !e.newest && e.slots.len() <= 1 ==> all_empty(e.slots)
    &&& match e.flight {
        Some(f) => flight_wf(e.slots, f) && waiting(e.slots, f) && phase_fits(e, f),
        None => true,
    }
}

/// The record that was built from a polled record which the plan takes in carries its
/// partition and offset.
pub open spec fn faithful(slots: Seq<Slot>, input: Input) -> bool {
    match input {
        Input::Polled(PollEvent::Record(r), item) => built_from(slots, r.partition, r.offset, item),
        _ => true,
    }
}

/// Every call of the run is faithful.
pub open spec fn all_faithful(slots: Seq<Slot>, inputs: Seq<Input>) -> bool {
    forall|i: int| 0 <= i < inputs.len() ==> faithful(slots, #[trigger] inputs[i])
}

/// Whether a record is taken in depends on the plan alone.
pub proof fn lemma_faithful_same_plan(a: Seq<Slot>, b: Seq<Slot>, input: Input)
    requires
        same_plan(a, b),
        faithful(a, input),
    ensures
        faithful(b, input),
{
    match input {
        Input::Polled(PollEvent::Record(r), item) => {
            lemma_find_same_plan(a, b, r.partition, 0);
            lemma_find_from(a, r.partition, 0);
            match find_slot(a, r.partition) {
                Some(i) => {
                    assert(a[i].partition == b[i].partition);
                },
                None => {},
            }
        },
        _ => {},
    }
}

/// The batch in progress, seen as records handed out so far.
pub open spec fn in_progress(e: Engine) -> Seq<(i64, UiMessage)> {
    match e.flight {
        Some(f) => f.out,
        None => Seq::empty(),
    }
}

/// A batch of a plan read in order of arrival buffers nothing.
proof fn lemma_sequential_buffers_nothing(slots: Seq<Slot>, f: Flight, event: PollEvent, item: (i64, UiMessage))
    requires
        f.phase is Sequential,
        all_empty(slots),
    ensures
        all_empty(delivered(slots, f, event, item).0),
        delivered(slots, f, event, item).1.phase is Sequential,
{
    let d = delivered(slots, f, event, item);
    match event {
        PollEvent::Record(r) => {
            lemma_find_from(slots, r.partition, 0);
        },
        _ => {},
    }
    assert(d.0.len() == slots.len());
    assert forall|i: int| 0 <= i < d.0.len() implies (#[trigger] d.0[i]).buffer.len() == 0 by {
        assert(slots[i].buffer.len() == 0);
    }
}

/// One call keeps the reading state sound and the plan as it is, lets done marks only grow,
/// and ends a batch only with records of the plan, no more than the limit asked for.
pub proof fn law_call_keeps_sound(e: Engine, input: Input)
    requires
        engine_wf(e),
        faithful(e.slots, input),
    ensures
        engine_wf(after(e, input).0),
        same_plan(e.slots, after(e, input).0.slots),
        done_grows(e.slots, after(e, input).0.slots),
        after(e, input).0.newest == e.newest,
        after(e, input).0.assigned == e.assigned,
        match after(e, input).1 {
            Some(f) => flight_wf(after(e, input).0.slots, f) && (input matches Input::Begin(limit)
                ==> f.limit == limit) && (e.flight matches Some(b) ==> f.limit == b.limit),
            None => true,
        },
{
    match input {
        Input::Begin(limit) => {
            if !e.assigned || e.flight is Some {
            } else if all_done(e.slots) && all_empty(e.slots) {
            } else {
                let f0 = new_flight(e.slots, e.newest, limit);
                assert(sound(e.slots, f0));
                lemma_advance_keeps_plan(e.slots, f0);
                lemma_advance_waits(e.slots, f0);
                let a = advance(e.slots, f0);
                lemma_phase_kept(e.slots, f0);
                if f0.phase is Sequential {
                    assert(a.slots == e.slots);
                }
            }
        },
        Input::Polled(event, item) => {
            match e.flight {
                None => {},
                Some(f) => {
                    let d = delivered(e.slots, f, event, item);
                    match event {
                        PollEvent::Record(r) => {
                            lemma_deliver_keeps_plan(e.slots, f, r.partition, r.offset, item);
                        },
                        _ => {},
                    }
                    assert(sound(d.0, d.1));
                    assert(same_plan(e.slots, d.0));
                    lemma_advance_keeps_plan(d.0, d.1);
                    lemma_advance_waits(d.0, d.1);
                    lemma_phase_kept(d.0, d.1);
                    let a = advance(d.0, d.1);
                    assert(same_plan(e.slots, a.slots)) by {
                        assert forall|j: int| 0 <= j < e.slots.len() implies (
                        #[trigger] e.slots[j]).partition == a.slots[j].partition
                            && e.slots[j].start == a.slots[j].start && e.slots[j].end
                            == a.slots[j].end by {
                            assert(d.0[j].partition == a.slots[j].partition);
                        }
                    }
                    assert(done_grows(e.slots, a.slots)) by {
                        assert forall|j: int|
                            0 <= j < e.slots.len() && 0 <= j < a.slots.len() && (
                            #[trigger] e.slots[j]).done implies a.slots[j].done by {
                            assert(d.0[j].done);
                        }
                    }
                    if f.phase is Sequential {
                        lemma_sequential_buffers_nothing(e.slots, f, event, item);
                        assert(a.slots == d.0);
                    }
                },
            }
        },
    }
}

/// Running a batch keeps it in the direction and shape in which it began.
pub proof fn lemma_phase_kept(slots: Seq<Slot>, f: Flight)
    ensures
        advance(slots, f).flight.phase is Drain <==> f.phase is Drain,
        advance(slots, f).flight.phase is Sequential <==> f.phase is Sequential,
{
    match f.phase {
        Phase::Sequential => {},
        Phase::Drain => {},
        _ => {
            lemma_oldest_waits(slots, f);
        },
    }
}

/// Over a run of calls the reading state stays sound and the plan as it is, done marks only
/// grow, and every record handed out lies in the window of a partition of the plan.
pub proof fn law_run_keeps_sound(e: Engine, inputs: Seq<Input>)
    requires
        engine_wf(e),
        all_faithful(e.slots, inputs),
    ensures
        engine_wf(run(e, inputs).0),
        same_plan(e.slots, run(e, inputs).0.slots),
        done_grows(e.slots, run(e, inputs).0.slots),
        run(e, inputs).0.newest == e.newest,
        forall|k: int|
            0 <= k < run(e, inputs).1.len() ==> in_plan(e.slots, #[trigger] run(e, inputs).1[k]),
    decreases inputs.len(),
{
    if inputs.len() > 0 {
        let rest = inputs.drop_last();
        assert(all_faithful(e.slots, rest)) by {
            assert forall|i: int| 0 <= i < rest.len() implies faithful(
                e.slots,
                #[trigger] rest[i],
            ) by {
                assert(rest[i] == inputs[i]);
            }
        }
        law_run_keeps_sound(e, rest);
        let r = run(e, rest);
        assert(faithful(e.slots, inputs[inputs.len() - 1]));
        lemma_faithful_same_plan(e.slots, r.0.slots, inputs.last());
        law_call_keeps_sound(r.0, inputs.last());
        let s = after(r.0, inputs.last());
        assert(same_plan(e.slots, s.0.slots)) by {
            assert forall|j: int| 0 <= j < e.slots.len() implies (#[trigger] e.slots[j]).partition
                == s.0.slots[j].partition && e.slots[j].start == s.0.slots[j].start
                && e.slots[j].end == s.0.slots[j].end by {
                assert(r.0.slots[j].partition == s.0.slots[j].partition);
            }
        }
        assert(same_plan(s.0.slots, e.slots)) by {
            assert forall|j: int| 0 <= j < s.0.slots.len() implies (
            #[trigger] s.0.slots[j]).partition == e.slots[j].partition && s.0.slots[j].start
                == e.slots[j].start && s.0.slots[j].end == e.slots[j].end by {
                assert(e.slots[j].partition == s.0.slots[j].partition);
            }
        }
        assert(done_grows(e.slots, s.0.slots)) by {
            assert forall|j: int|
                0 <= j < e.slots.len() && 0 <= j < s.0.slots.len() && (
                #[trigger] e.slots[j]).done implies s.0.slots[j].done by {
                assert(r.0.slots[j].done);
            }
        }
        let total = run(e, inputs).1;
        assert forall|k: int| 0 <= k < total.len() implies in_plan(e.slots, #[trigger] total[k]) by {
            if k < r.1.len() {
                assert(total[k] == r.1[k]);
            } else {
                let f = s.1->0;
                assert(total[k] == f.out[k - r.1.len()]);
                assert(in_plan(s.0.slots, f.out[k - r.1.len()]));
                lemma_in_plan_same_plan(s.0.slots, e.slots, total[k]);
            }
        }
    }
}

/// What partition `p` has handed out in the batch in progress, followed by what it holds.
pub open spec fn pending(e: Engine, p: i32) -> Seq<i64> {
    sent(in_progress(e), p) + held(e.slots, p)
}

/// The offset that a call brings to partition `p`: that of a polled record of `p` which is
/// taken in; nothing for any other call.
pub open spec fn arrival(e: Engine, input: Input, p: i32) -> Seq<i64> {
    match input {
        Input::Polled(PollEvent::Record(r), _) => if e.flight is Some && r.partition == p
            && accepted(e.slots, r.partition, r.offset) {
            seq![r.offset]
        } else {
            Seq::empty()
        },
        _ => Seq::empty(),
    }
}

/// The offsets that a run of calls brings to partition `p`, in order.
pub open spec fn arrivals(e: Engine, inputs: Seq<Input>, p: i32) -> Seq<i64>
    decreases inputs.len(),
{
    if inputs.len() == 0 {
        Seq::empty()
    } else {
        arrivals(e, inputs.drop_last(), p) + arrival(run(e, inputs.drop_last()).0, inputs.last(), p)
    }
}

/// Reading oldest first, one call hands out the records of a partition in the order of
/// their arrival: what the call hands out, followed by what is then pending, is what was
/// pending before, followed by what the call brought.
pub proof fn law_call_keeps_arrival_order(e: Engine, input: Input, p: i32)
    requires
        engine_wf(e),
        faithful(e.slots, input),
        !e.newest,
    ensures
        sent(handed_out(after(e, input).1), p) + pending(after(e, input).0, p) == pending(e, p)
            + arrival(e, input, p),
{
    let s = after(e, input);
    let none = Seq::<i64>::empty();
    assert(sent(Seq::<(i64, UiMessage)>::empty(), p) =~= none);
    match input {
        Input::Begin(limit) => {
            if !e.assigned || e.flight is Some {
                assert(none + pending(e, p) =~= pending(e, p) + none);
            } else if all_done(e.slots) && all_empty(e.slots) {
                assert(none + pending(e, p) =~= pending(e, p) + none);
            } else {
                let f0 = new_flight(e.slots, e.newest, limit);
                if f0.phase is Sequential {
                    assert(none + pending(e, p) =~= pending(e, p) + none);
                } else {
                    lemma_oldest_keeps_arrival_order(e.slots, f0, p);
                    let a = advance_oldest(e.slots, f0);
                    assert(sent(handed_out(s.1), p) + pending(s.0, p) =~= sent(a.flight.out, p)
                        + held(a.slots, p));
                    assert(pending(e, p) + none =~= sent(f0.out, p) + held(e.slots, p));
                }
            }
        },
        Input::Polled(event, item) => {
            match e.flight {
                None => {
                    assert(none + pending(e, p) =~= pending(e, p) + none);
                },
                Some(f) => {
                    let d = delivered(e.slots, f, event, item);
                    match event {
                        PollEvent::Record(r) => {
                            lemma_deliver_arrival(e.slots, f, r.partition, r.offset, item, p);
                            lemma_deliver_keeps_plan(e.slots, f, r.partition, r.offset, item);
                        },
                        _ => {
                            assert(sent(d.1.out, p) + held(d.0, p) =~= pending(e, p) + none);
                        },
                    }
                    assert(sent(d.1.out, p) + held(d.0, p) == pending(e, p) + arrival(e, input, p));
                    assert(slots_wf(d.0));
                    let a = advance(d.0, d.1);
                    if d.1.phase is Sequential {
                    } else {
                        lemma_oldest_keeps_arrival_order(d.0, d.1, p);
                    }
                    assert(sent(a.flight.out, p) + held(a.slots, p) == sent(d.1.out, p) + held(
                        d.0,
                        p,
                    ));
                    assert(sent(handed_out(s.1), p) + pending(s.0, p) =~= sent(a.flight.out, p)
                        + held(a.slots, p));
                },
            }
        },
    }
}

/// Reading oldest first, the records that a run of calls hands out for a partition are the
/// first of those that arrived for it, in the order of their arrival: what was handed out,
/// followed by what is pending at the end, is what was pending at the start, followed by
/// what the run brought.
pub proof fn law_run_keeps_arrival_order(e: Engine, inputs: Seq<Input>, p: i32)
    requires
        engine_wf(e),
        all_faithful(e.slots, inputs),
        !e.newest,
    ensures
        sent(run(e, inputs).1, p) + pending(run(e, inputs).0, p) == pending(e, p) + arrivals(
            e,
            inputs,
            p,
        ),
    decreases inputs.len(),
{
    if inputs.len() == 0 {
        assert(sent(Seq::<(i64, UiMessage)>::empty(), p) =~= Seq::<i64>::empty());
        assert(sent(run(e, inputs).1, p) + pending(e, p) =~= pending(e, p) + Seq::<i64>::empty());
    } else {
        let rest = inputs.drop_last();
        assert(all_faithful(e.slots, rest)) by {
            assert forall|i: int| 0 <= i < rest.len() implies faithful(
                e.slots,
                #[trigger] rest[i],
            ) by {
                assert(rest[i] == inputs[i]);
            }
        }
        law_run_keeps_arrival_order(e, rest, p);
        law_run_keeps_sound(e, rest);
        let r = run(e, rest);
        assert(faithful(e.slots, inputs[inputs.len() - 1]));
        lemma_faithful_same_plan(e.slots, r.0.slots, inputs.last());
        law_call_keeps_arrival_order(r.0, inputs.last(), p);
        let s = after(r.0, inputs.last());
        lemma_sent_concat(r.1, handed_out(s.1), p);
        let x = arrival(r.0, inputs.last(), p);
        assert(sent(r.1, p) + sent(handed_out(s.1), p) + pending(s.0, p) =~= sent(r.1, p) + (sent(
            handed_out(s.1),
            p,
        ) + pending(s.0, p)));
        assert(sent(r.1, p) + (pending(r.0, p) + x) =~= (sent(r.1, p) + pending(r.0, p)) + x);
        assert((pending(e, p) + arrivals(e, rest, p)) + x =~= pending(e, p) + (arrivals(e, rest, p)
            + x));
    }
}

/// Each offset is larger than the one before it.
pub open spec fn increasing(s: Seq<i64>) -> bool {
    forall|a: int, b: int| 0 <= a < b < s.len() ==> #[trigger] s[a] < #[trigger] s[b]
}

/// The reading state right after a plan was installed: sound, nothing buffered, no batch in
/// progress.
pub open spec fn fresh(e: Engine) -> bool {
    engine_wf(e) && e.flight is None && all_empty(e.slots)
}

/// Right after a plan was installed, nothing is pending for any partition.
pub proof fn lemma_fresh_nothing_pending(e: Engine, p: i32)
    requires
        fresh(e),
    ensures
        pending(e, p) == Seq::<i64>::empty(),
{
    lemma_find_from(e.slots, p, 0);
    assert(sent(Seq::<(i64, UiMessage)>::empty(), p) =~= Seq::<i64>::empty());
    match find_slot(e.slots, p) {
        Some(i) => {
            assert(e.slots[i].buffer.len() == 0);
            assert(held(e.slots, p) =~= Seq::<i64>::empty());
        },
        None => {},
    }
    assert(pending(e, p) =~= Seq::<i64>::empty());
}

/// Within a partition, offsets rise strictly in the order in which records are handed out,
/// over all batches of a plan that is read oldest first, whenever the source delivers the
/// partition's records with strictly rising offsets.
pub proof fn law_offsets_increase(e: Engine, inputs: Seq<Input>, p: i32)
    requires
        fresh(e),
        !e.newest,
        all_faithful(e.slots, inputs),
        increasing(arrivals(e, inputs, p)),
    ensures
        increasing(sent(run(e, inputs).1, p)),
{
    law_run_keeps_arrival_order(e, inputs, p);
    lemma_fresh_nothing_pending(e, p);
    let out = sent(run(e, inputs).1, p);
    let all = arrivals(e, inputs, p);
    assert(Seq::<i64>::empty() + all =~= all);
    assert forall|a: int, b: int| 0 <= a < b < out.len() implies #[trigger] out[a] < #[trigger] out[b] by {
        assert(out[a] == all[a]);
        assert(out[b] == all[b]);
    }
}

/// Every offset that a run brings to the partition of slot `i` lies in its window.
pub proof fn lemma_arrivals_in_window(e: Engine, inputs: Seq<Input>, i: int)
    requires
        engine_wf(e),
        all_faithful(e.slots, inputs),
        0 <= i < e.slots.len(),
    ensures
        forall|k: int|
            0 <= k < arrivals(e, inputs, e.slots[i].partition).len() ==> e.slots[i].start
                <= #[trigger] arrivals(e, inputs, e.slots[i].partition)[k] < e.slots[i].end,
    decreases inputs.len(),
{
    let p = e.slots[i].partition;
    if inputs.len() > 0 {
        let rest = inputs.drop_last();
        assert(all_faithful(e.slots, rest)) by {
            assert forall|j: int| 0 <= j < rest.len() implies faithful(
                e.slots,
                #[trigger] rest[j],
            ) by {
                assert(rest[j] == inputs[j]);
            }
        }
        lemma_arrivals_in_window(e, rest, i);
        law_run_keeps_sound(e, rest);
        let r = run(e, rest);
        lemma_find_same_plan(e.slots, r.0.slots, p, 0);
        super::reader::laws::lemma_find_slot_at(e.slots, i);
        assert(r.0.slots[i].start == e.slots[i].start && r.0.slots[i].end == e.slots[i].end) by {
            assert(e.slots[i].partition == r.0.slots[i].partition);
        }
        let all = arrivals(e, inputs, p);
        let before = arrivals(e, rest, p);
        assert forall|k: int| 0 <= k < all.len() implies e.slots[i].start <= #[trigger] all[k]
            < e.slots[i].end by {
            if k < before.len() {
                assert(all[k] == before[k]);
            }
        }
    }
}

/// The offsets handed out for a partition, over all batches of a plan that is read oldest
/// first, are the first offsets of its window, each once and without a gap, whenever the
/// source delivers the partition's records from the start of the window on without a gap.
pub proof fn law_handed_out_is_window_prefix(e: Engine, inputs: Seq<Input>, i: int)
    requires
        fresh(e),
        !e.newest,
        all_faithful(e.slots, inputs),
        0 <= i < e.slots.len(),
        forall|k: int|
            0 <= k < arrivals(e, inputs, e.slots[i].partition).len() ==> #[trigger] arrivals(
                e,
                inputs,
                e.slots[i].partition,
            )[k] == e.slots[i].start + k,
    ensures
        forall|k: int|
            0 <= k < sent(run(e, inputs).1, e.slots[i].partition).len() ==> #[trigger] sent(
                run(e, inputs).1,
                e.slots[i].partition,
            )[k] == e.slots[i].start + k,
        sent(run(e, inputs).1, e.slots[i].partition).len() > 0 ==> e.slots[i].start + sent(
            run(e, inputs).1,
            e.slots[i].partition,
        ).len() <= e.slots[i].end,
{
    let p = e.slots[i].partition;
    law_run_keeps_arrival_order(e, inputs, p);
    lemma_fresh_nothing_pending(e, p);
    lemma_arrivals_in_window(e, inputs, i);
    let out = sent(run(e, inputs).1, p);
    let all = arrivals(e, inputs, p);
    assert(Seq::<i64>::empty() + all =~= all);
    assert(out.len() <= all.len());
    assert forall|k: int| 0 <= k < out.len() implies #[trigger] out[k] == e.slots[i].start + k by {
        assert(out[k] == all[k]);
    }
    if out.len() > 0 {
        let last = out.len() - 1;
        assert(out[last] == all[last]);
        assert(all[last] < e.slots[i].end);
    }
}

/// The reading state is in order: every buffer ascends by time, then partition, then
/// offset; reading oldest first, the records handed out so far ascend and none of them has
/// a larger key than a buffered one; reading newest first, nothing is handed out before the
/// batch ends.
pub open spec fn ordered(e: Engine) -> bool {
    &&& buffers_ascending(e.slots)
    &&& match e.flight {
        Some(f) => if e.newest {
            f.out.len() == 0
        } else {
            merge_ordered(e.slots, f.out)
        },
        None => true,
    }
}

/// The call brings nothing out of order: a polled record that is taken in has a key that
/// is not smaller than that of the newest record its partition buffers, nor than that of
/// any record handed out so far in the batch.
pub open spec fn in_order(e: Engine, input: Input) -> bool {
    match input {
        Input::Polled(PollEvent::Record(r), item) => e.flight is Some && accepted(
            e.slots,
            r.partition,
            r.offset,
        ) ==> arrives_in_order(e.slots, e.flight->0.out, r.partition, item),
        _ => true,
    }
}

/// While records arrive in order, a batch that reads oldest first ends with its records
/// ascending by time, then partition, then offset, and one that reads newest first with
/// its records descending; and the reading state stays in order.
pub proof fn law_call_keeps_order(e: Engine, input: Input)
    requires
        engine_wf(e),
        faithful(e.slots, input),
        ordered(e),
        in_order(e, input),
    ensures
        ordered(after(e, input).0),
        match after(e, input).1 {
            Some(f) => if e.newest {
                descending(f.out)
            } else {
                ascending(f.out)
            },
            None => true,
        },
{
    let none = Seq::<(i64, UiMessage)>::empty();
    match input {
        Input::Begin(limit) => {
            if !e.assigned || e.flight is Some {
            } else if all_done(e.slots) && all_empty(e.slots) {
            } else {
                let f0 = new_flight(e.slots, e.newest, limit);
                assert(f0.out =~= none);
                lemma_run_in_order(e.slots, f0);
            }
        },
        Input::Polled(event, item) => {
            match e.flight {
                None => {},
                Some(f) => {
                    let d = delivered(e.slots, f, event, item);
                    match event {
                        PollEvent::Record(r) => {
                            if accepted(e.slots, r.partition, r.offset) {
                                lemma_deliver_ordered(e.slots, f, r.partition, r.offset, item);
                            } else {
                                lemma_deliver_rejected(e.slots, f, r.partition, r.offset, item);
                                assert(buffers_ascending(d.0)) by {
                                    assert forall|i: int| 0 <= i < d.0.len() implies ascending(
                                        (#[trigger] d.0[i]).buffer,
                                    ) by {
                                        assert(ascending(e.slots[i].buffer));
                                    }
                                }
                                if !e.newest {
                                    assert(merge_ordered(d.0, d.1.out)) by {
                                        assert forall|k: int, a: int|
                                            0 <= k < d.1.out.len() && 0 <= a < d.0.len() && (
                                            #[trigger] d.0[a]).buffer.len() > 0 implies key_le(
                                            key_of(#[trigger] d.1.out[k]),
                                            key_of(d.0[a].buffer[0]),
                                        ) by {
                                            assert(e.slots[a].buffer.len() > 0);
                                        }
                                    }
                                }
                            }
                        },
                        _ => {},
                    }
                    lemma_run_in_order(d.0, d.1);
                },
            }
        },
    }
}

/// A batch run from a state in order ends in order: ascending where it reads oldest first,
/// descending where it reads newest first and has handed out nothing before.
pub proof fn lemma_run_in_order(slots: Seq<Slot>, f: Flight)
    requires
        buffers_ascending(slots),
        f.phase is Drain ==> f.out.len() == 0,
        !(f.phase is Drain) ==> merge_ordered(slots, f.out),
    ensures
        buffers_ascending(advance(slots, f).slots),
        f.phase is Drain ==> descending(advance(slots, f).flight.out) && (!advance(
            slots,
            f,
        ).finished ==> advance(slots, f).flight.out.len() == 0),
        !(f.phase is Drain) ==> merge_ordered(advance(slots, f).slots, advance(slots, f).flight.out),
{
    match f.phase {
        Phase::Sequential => {},
        Phase::Drain => {
            assert(descending(f.out));
            lemma_tails_descending(slots, f.out, f.limit);
        },
        _ => {
            lemma_oldest_ascending(slots, f);
        },
    }
}

/// Once the filters were applied and a plan was installed again, every record that is
/// handed out lies in a window of the new plan: nothing that was buffered or in progress
/// under the plan before can come through.
pub proof fn law_new_plan_hands_out_its_own(e: Engine, inputs: Seq<Input>)
    requires
        fresh(e),
        all_faithful(e.slots, inputs),
    ensures
        forall|k: int|
            0 <= k < run(e, inputs).1.len() ==> in_plan(e.slots, #[trigger] run(e, inputs).1[k]),
{
    law_run_keeps_sound(e, inputs);
}

/// The batches that ended in a run of calls, each with the records it handed out.
pub open spec fn batches(e: Engine, inputs: Seq<Input>) -> Seq<Seq<(i64, UiMessage)>>
    decreases inputs.len(),
{
    if inputs.len() == 0 {
        Seq::empty()
    } else {
        match after(run(e, inputs.drop_last()).0, inputs.last()).1 {
            Some(f) => batches(e, inputs.drop_last()).push(f.out),
            None => batches(e, inputs.drop_last()),
        }
    }
}

/// Every call of the run brings nothing out of order into the state it meets.
pub open spec fn all_in_order(e: Engine, inputs: Seq<Input>) -> bool
    decreases inputs.len(),
{
    inputs.len() == 0 || (all_in_order(e, inputs.drop_last()) && in_order(
        run(e, inputs.drop_last()).0,
        inputs.last(),
    ))
}

/// While records arrive in order, every batch of a plan that is read oldest first hands
/// out its records ascending by time, then partition, then offset, and every batch of a
/// plan that is read newest first hands them out descending.
pub proof fn law_batches_in_order(e: Engine, inputs: Seq<Input>)
    requires
        engine_wf(e),
        ordered(e),
        all_faithful(e.slots, inputs),
        all_in_order(e, inputs),
    ensures
        ordered(run(e, inputs).0),
        forall|b: int|
            0 <= b < batches(e, inputs).len() ==> (if e.newest {
                descending(#[trigger] batches(e, inputs)[b])
            } else {
                ascending(#[trigger] batches(e, inputs)[b])
            }),
    decreases inputs.len(),
{
    if inputs.len() > 0 {
        let rest = inputs.drop_last();
        assert(all_faithful(e.slots, rest)) by {
            assert forall|i: int| 0 <= i < rest.len() implies faithful(
                e.slots,
                #[trigger] rest[i],
            ) by {
                assert(rest[i] == inputs[i]);
            }
        }
        law_batches_in_order(e, rest);
        law_run_keeps_sound(e, rest);
        let r = run(e, rest);
        assert(faithful(e.slots, inputs[inputs.len() - 1]));
        lemma_faithful_same_plan(e.slots, r.0.slots, inputs.last());
        law_call_keeps_order(r.0, inputs.last());
        let all = batches(e, inputs);
        let before = batches(e, rest);
        assert forall|b: int| 0 <= b < all.len() implies (if e.newest {
            descending(#[trigger] all[b])
        } else {
            ascending(#[trigger] all[b])
        }) by {
            if b < before.len() {
                assert(all[b] == before[b]);
            }
        }
    }
}

/// Where a record of partition `p` stands at `i` in `out`, its offset stands in
/// `sent(out, p)` at the place that counts the records of `p` before it.
pub open spec fn place_in_sent(out: Seq<(i64, UiMessage)>, p: i32, i: int) -> int {
    sent(out.subrange(0, i), p).len() as int
}

/// The offset of a record of partition `p` in `out` is found in `sent(out, p)` at its
/// place, and records that stand later are found at later places.
pub proof fn lemma_place_in_sent(out: Seq<(i64, UiMessage)>, p: i32, i: int)
    requires
        0 <= i < out.len(),
        out[i].1.partition == p,
    ensures
        0 <= place_in_sent(out, p, i) < sent(out, p).len(),
        sent(out, p)[place_in_sent(out, p, i)] == out[i].1.offset,
        forall|j: int|
            i < j < out.len() && out[j].1.partition == p ==> place_in_sent(out, p, i)
                < #[trigger] place_in_sent(out, p, j),
{
    let head = out.subrange(0, i);
    let tail = out.subrange(i, out.len() as int);
    assert(out =~= head + tail);
    lemma_sent_concat(head, tail, p);
    let one = out.subrange(i, i + 1);
    let rest = out.subrange(i + 1, out.len() as int);
    assert(tail =~= one + rest);
    lemma_sent_concat(one, rest, p);
    assert(one.drop_last() =~= Seq::<(i64, UiMessage)>::empty());
    assert(sent(one.drop_last(), p) =~= Seq::<i64>::empty());
    assert(one.last() == out[i]);
    assert(sent(one, p) =~= seq![out[i].1.offset]);
    assert forall|j: int| i < j < out.len() && out[j].1.partition == p implies place_in_sent(
        out,
        p,
        i,
    ) < #[trigger] place_in_sent(out, p, j) by {
        let upto = out.subrange(0, j);
        let mid = out.subrange(i, j);
        assert(upto =~= head + mid);
        lemma_sent_concat(head, mid, p);
        let more = out.subrange(i + 1, j);
        assert(mid =~= one + more);
        lemma_sent_concat(one, more, p);
    }
}

/// The reading state is calm: the plan fits in memory, and the batch in progress, if there
/// is one, has not given up on a partition.
pub open spec fn calm_engine(e: Engine) -> bool {
    &&& e.slots.len() <= usize::MAX
    &&& match e.flight {
        Some(f) => calm(e.slots, f),
        None => true,
    }
}

/// The call is steady: the batch does not give up on a partition once the result of the
/// poll is taken in, and a polled record that is taken in rises within its partition. This
/// is how a source behaves that answers in time and delivers the records of each partition
/// with times that do not fall and offsets that rise.
pub open spec fn steady(e: Engine, input: Input) -> bool {
    match input {
        Input::Polled(event, item) => match e.flight {
            Some(f) => {
                &&& timely(
                    delivered(e.slots, f, event, item).0,
                    delivered(e.slots, f, event, item).1,
                )
                &&& match event {
                    PollEvent::Record(r) => accepted(e.slots, r.partition, r.offset) ==> rising(
                        e.slots,
                        f.out,
                        r.partition,
                        item,
                    ),
                    _ => true,
                }
            },
            None => true,
        },
        Input::Begin(_) => true,
    }
}

/// Every call of the run is steady in the state it meets.
pub open spec fn all_steady(e: Engine, inputs: Seq<Input>) -> bool
    decreases inputs.len(),
{
    inputs.len() == 0 || (all_steady(e, inputs.drop_last()) && steady(
        run(e, inputs.drop_last()).0,
        inputs.last(),
    ))
}

/// A steady call on a calm state in order brings nothing out of order, and leaves the state
/// calm.
pub proof fn law_steady_call_is_in_order(e: Engine, input: Input)
    requires
        engine_wf(e),
        ordered(e),
        calm_engine(e),
        faithful(e.slots, input),
        steady(e, input),
    ensures
        in_order(e, input),
        calm_engine(after(e, input).0),
{
    match input {
        Input::Begin(limit) => {
            if !e.assigned || e.flight is Some {
            } else if all_done(e.slots) && all_empty(e.slots) {
            } else {
                let f0 = new_flight(e.slots, e.newest, limit);
                lemma_advance_keeps_plan(e.slots, f0);
                if f0.phase is Fill {
                    lemma_oldest_stays_calm(e.slots, f0);
                }
            }
        },
        Input::Polled(event, item) => {
            match e.flight {
                None => {},
                Some(f) => {
                    let d = delivered(e.slots, f, event, item);
                    match event {
                        PollEvent::Record(r) => {
                            lemma_find_from(e.slots, r.partition, 0);
                            lemma_deliver_keeps_plan(e.slots, f, r.partition, r.offset, item);
                            if accepted(e.slots, r.partition, r.offset) {
                                let j = find_slot(e.slots, r.partition)->0;
                                if f.phase is Sequential {
                                    assert(e.slots[j].buffer.len() == 0);
                                    assert forall|k: int| 0 <= k < f.out.len() implies key_le(
                                        key_of(#[trigger] f.out[k]),
                                        key_of(item),
                                    ) by {
                                        assert(in_plan(e.slots, f.out[k]));
                                    }
                                } else if f.phase is Drain {
                                } else {
                                    lemma_rising_arrives_in_order(e.slots, f, r.partition, item);
                                }
                            }
                            if !(f.phase is Sequential) {
                                lemma_record_stays_calm(e.slots, f, r.partition, r.offset, item);
                            }
                        },
                        _ => {},
                    }
                    assert(slots_wf(d.0));
                    assert(d.0.len() == e.slots.len());
                    lemma_advance_keeps_plan(d.0, d.1);
                    if d.1.phase is Sequential || d.1.phase is Drain {
                    } else {
                        assert(calm(d.0, d.1));
                        lemma_oldest_stays_calm(d.0, d.1);
                    }
                },
            }
        },
    }
}

/// A steady run from a calm state in order brings nothing out of order, and ends in a calm
/// state in order.
pub proof fn lemma_steady_run(e: Engine, inputs: Seq<Input>)
    requires
        engine_wf(e),
        ordered(e),
        calm_engine(e),
        all_faithful(e.slots, inputs),
        all_steady(e, inputs),
    ensures
        all_in_order(e, inputs),
        calm_engine(run(e, inputs).0),
    decreases inputs.len(),
{
    if inputs.len() > 0 {
        let rest = inputs.drop_last();
        assert(all_faithful(e.slots, rest)) by {
            assert forall|i: int| 0 <= i < rest.len() implies faithful(
                e.slots,
                #[trigger] rest[i],
            ) by {
                assert(rest[i] == inputs[i]);
            }
        }
        lemma_steady_run(e, rest);
        law_batches_in_order(e, rest);
        law_run_keeps_sound(e, rest);
        let r = run(e, rest);
        assert(faithful(e.slots, inputs[inputs.len() - 1]));
        lemma_faithful_same_plan(e.slots, r.0.slots, inputs.last());
        law_steady_call_is_in_order(r.0, inputs.last());
    }
}

/// Where the source answers in time and delivers the records of each partition with times
/// that do not fall and offsets that rise, every batch of a plan that is read oldest first
/// hands out its records ascending by time, then partition, then offset, with the records
/// that carry no time at the end; and every batch of a plan that is read newest first hands
/// them out descending.
pub proof fn law_steady_batches_in_order(e: Engine, inputs: Seq<Input>)
    requires
        fresh(e),
        e.slots.len() <= usize::MAX,
        all_faithful(e.slots, inputs),
        all_steady(e, inputs),
    ensures
        forall|b: int|
            0 <= b < batches(e, inputs).len() ==> (if e.newest {
                descending(#[trigger] batches(e, inputs)[b])
            } else {
                ascending(#[trigger] batches(e, inputs)[b])
            }),
{
    assert(ordered(e)) by {
        assert forall|i: int| 0 <= i < e.slots.len() implies ascending(
            (#[trigger] e.slots[i]).buffer,
        ) by {
            assert(e.slots[i].buffer.len() == 0);
        }
    }
    lemma_steady_run(e, inputs);
    law_batches_in_order(e, inputs);
}

/// The offsets of a list as a bag: how often each occurs, whatever the order.
pub open spec fn bag(s: Seq<i64>) -> Multiset<i64> {
    s.to_multiset()
}

/// The bag of two lists, one behind the other, is the sum of their bags.
pub proof fn lemma_bag_concat(a: Seq<i64>, b: Seq<i64>)
    ensures
        bag(a + b) == bag(a).add(bag(b)),
{
    vstd::seq_lib::lemma_multiset_commutative(a, b);
}

/// A batch that runs up to its next poll or to its end neither loses nor doubles a record,
/// in whichever direction it reads: what a partition has handed out and what it holds are
/// together the same bag before and after.
pub proof fn lemma_advance_conserves(slots: Seq<Slot>, f: Flight, p: i32)
    requires
        slots_wf(slots),
    ensures
        bag(sent(advance(slots, f).flight.out, p) + held(advance(slots, f).slots, p)) == bag(
            sent(f.out, p) + held(slots, p),
        ),
{
    broadcast use vstd::multiset::group_multiset_axioms;

    let a = advance(slots, f);
    match f.phase {
        Phase::Sequential => {},
        Phase::Drain => {
            if all_done(slots) || f.idle >= IDLE_LIMIT_DRAIN {
                law_tails_newest_first(slots, f.out, f.limit, p);
                let before = sent(f.out, p);
                let now = sent(a.flight.out, p);
                lemma_bag_concat(held(a.slots, p), now.reverse());
                lemma_bag_concat(held(slots, p), before.reverse());
                now.lemma_reverse_to_multiset();
                before.lemma_reverse_to_multiset();
                lemma_bag_concat(now, held(a.slots, p));
                lemma_bag_concat(before, held(slots, p));
                assert(bag(now).add(bag(held(a.slots, p))) =~= bag(held(a.slots, p)).add(bag(now)));
                assert(bag(before).add(bag(held(slots, p))) =~= bag(held(slots, p)).add(
                    bag(before),
                ));
            }
        },
        _ => {
            lemma_oldest_keeps_arrival_order(slots, f, p);
        },
    }
}

/// One call neither loses nor doubles a record of a partition, in whichever direction the
/// plan is read: what the call hands out and what is then pending are together what was
/// pending before and what the call brought.
pub proof fn law_call_conserves(e: Engine, input: Input, p: i32)
    requires
        engine_wf(e),
        faithful(e.slots, input),
    ensures
        bag(sent(handed_out(after(e, input).1), p) + pending(after(e, input).0, p)) == bag(
            pending(e, p) + arrival(e, input, p),
        ),
{
    let s = after(e, input);
    let none = Seq::<i64>::empty();
    assert(sent(Seq::<(i64, UiMessage)>::empty(), p) =~= none);
    match input {
        Input::Begin(limit) => {
            if !e.assigned || e.flight is Some {
                assert(none + pending(e, p) =~= pending(e, p) + none);
            } else if all_done(e.slots) && all_empty(e.slots) {
                assert(none + pending(e, p) =~= pending(e, p) + none);
            } else {
                let f0 = new_flight(e.slots, e.newest, limit);
                lemma_advance_conserves(e.slots, f0, p);
                let a = advance(e.slots, f0);
                assert(sent(handed_out(s.1), p) + pending(s.0, p) =~= sent(a.flight.out, p) + held(
                    a.slots,
                    p,
                ));
                assert(pending(e, p) + none =~= sent(f0.out, p) + held(e.slots, p));
            }
        },
        Input::Polled(event, item) => {
            match e.flight {
                None => {
                    assert(none + pending(e, p) =~= pending(e, p) + none);
                },
                Some(f) => {
                    let d = delivered(e.slots, f, event, item);
                    match event {
                        PollEvent::Record(r) => {
                            lemma_deliver_arrival(e.slots, f, r.partition, r.offset, item, p);
                            lemma_deliver_keeps_plan(e.slots, f, r.partition, r.offset, item);
                        },
                        _ => {
                            assert(sent(d.1.out, p) + held(d.0, p) =~= pending(e, p) + none);
                        },
                    }
                    assert(sent(d.1.out, p) + held(d.0, p) == pending(e, p) + arrival(e, input, p));
                    assert(slots_wf(d.0));
                    lemma_advance_conserves(d.0, d.1, p);
                    let a = advance(d.0, d.1);
                    assert(sent(handed_out(s.1), p) + pending(s.0, p) =~= sent(a.flight.out, p)
                        + held(a.slots, p));
                },
            }
        },
    }
}

/// A run of calls neither loses nor doubles a record of a partition, in whichever direction
/// the plan is read: the records that the run hands out and those pending at its end are
/// together those pending at its start and those that the run brought.
pub proof fn law_run_conserves(e: Engine, inputs: Seq<Input>, p: i32)
    requires
        engine_wf(e),
        all_faithful(e.slots, inputs),
    ensures
        bag(sent(run(e, inputs).1, p) + pending(run(e, inputs).0, p)) == bag(
            pending(e, p) + arrivals(e, inputs, p),
        ),
    decreases inputs.len(),
{
    broadcast use vstd::multiset::group_multiset_axioms;

    if inputs.len() == 0 {
        assert(sent(Seq::<(i64, UiMessage)>::empty(), p) =~= Seq::<i64>::empty());
        assert(sent(run(e, inputs).1, p) + pending(e, p) =~= pending(e, p) + Seq::<i64>::empty());
    } else {
        let rest = inputs.drop_last();
        assert(all_faithful(e.slots, rest)) by {
            assert forall|i: int| 0 <= i < rest.len() implies faithful(
                e.slots,
                #[trigger] rest[i],
            ) by {
                assert(rest[i] == inputs[i]);
            }
        }
        law_run_conserves(e, rest, p);
        law_run_keeps_sound(e, rest);
        let r = run(e, rest);
        assert(faithful(e.slots, inputs[inputs.len() - 1]));
        lemma_faithful_same_plan(e.slots, r.0.slots, inputs.last());
        law_call_conserves(r.0, inputs.last(), p);
        let s = after(r.0, inputs.last());
        lemma_sent_concat(r.1, handed_out(s.1), p);
        let x = arrival(r.0, inputs.last(), p);
        let given = sent(handed_out(s.1), p);
        assert(sent(run(e, inputs).1, p) + pending(s.0, p) =~= sent(r.1, p) + (given + pending(
            s.0,
            p,
        )));
        lemma_bag_concat(sent(r.1, p), given + pending(s.0, p));
        lemma_bag_concat(sent(r.1, p), pending(r.0, p) + x);
        assert(sent(r.1, p) + (pending(r.0, p) + x) =~= (sent(r.1, p) + pending(r.0, p)) + x);
        lemma_bag_concat(sent(r.1, p) + pending(r.0, p), x);
        lemma_bag_concat(pending(e, p) + arrivals(e, rest, p), x);
        assert((pending(e, p) + arrivals(e, rest, p)) + x =~= pending(e, p) + arrivals(
            e,
            inputs,
            p,
        ));
    }
}

/// No record is handed out twice, over all batches of a plan, in whichever direction it is
/// read, whenever the source delivers the records of each partition with strictly rising
/// offsets: any two records that are handed out differ in partition or offset, and so in
/// their ids.
pub proof fn law_handed_out_once(e: Engine, inputs: Seq<Input>, i: int, j: int)
    requires
        fresh(e),
        all_faithful(e.slots, inputs),
        forall|p: i32| increasing(#[trigger] arrivals(e, inputs, p)),
        0 <= i < j < run(e, inputs).1.len(),
    ensures
        run(e, inputs).1[i].1.partition != run(e, inputs).1[j].1.partition || run(
            e,
            inputs,
        ).1[i].1.offset != run(e, inputs).1[j].1.offset,
{
    broadcast use vstd::multiset::group_multiset_axioms;

    let out = run(e, inputs).1;
    let p = out[i].1.partition;
    if out[j].1.partition == p {
        let all = arrivals(e, inputs, p);
        let given = sent(out, p);
        let left = pending(run(e, inputs).0, p);
        assert(increasing(all));
        law_run_conserves(e, inputs, p);
        lemma_fresh_nothing_pending(e, p);
        assert(Seq::<i64>::empty() + all =~= all);
        lemma_bag_concat(given, left);
        assert(all.no_duplicates());
        all.lemma_multiset_has_no_duplicates();
        assert forall|x: i64| bag(given).contains(x) implies bag(given).count(x) == 1 by {
            assert(bag(all).count(x) == bag(given).count(x) + bag(left).count(x));
            assert(bag(all).contains(x));
        }
        given.lemma_multiset_has_no_duplicates_conv();
        lemma_place_in_sent(out, p, i);
        lemma_place_in_sent(out, p, j);
        let a = place_in_sent(out, p, i);
        let b = place_in_sent(out, p, j);
        assert(a < b);
        assert(given[a] != given[b]);
    }
}

/// No two records that are handed out share an id, over all batches of a plan, in
/// whichever direction it is read, whenever the source delivers the records of each
/// partition with strictly rising offsets.
pub proof fn law_ids_differ(e: Engine, inputs: Seq<Input>, i: int, j: int)
    requires
        fresh(e),
        all_faithful(e.slots, inputs),
        forall|p: i32| increasing(#[trigger] arrivals(e, inputs, p)),
        0 <= i < j < run(e, inputs).1.len(),
    ensures
        run(e, inputs).1[i].1.id@ != run(e, inputs).1[j].1.id@,
{
    let out = run(e, inputs).1;
    law_handed_out_once(e, inputs, i, j);
    law_run_keeps_sound(e, inputs);
    assert(in_plan(e.slots, out[i]));
    assert(in_plan(e.slots, out[j]));
    if out[i].1.id@ == out[j].1.id@ {
        law_record_id_tells_the_record(
            out[i].1.partition,
            out[i].1.offset,
            out[j].1.partition,
            out[j].1.offset,
        );
    }
}

} // verus!
