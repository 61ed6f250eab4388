//! The schedule of resources that will arrive: an ordered list of events,
//! each giving the tick of arrival, the cell and the quantity.
//!
//! The list is kept with the latest event first, so that the soonest one is
//! at the end and can be taken off in constant time.

use vstd::prelude::*;

verus! {

/// Whether the events are in order of arrival, latest first.
pub open spec fn latest_first(schedule: Seq<(u32, i32, i32, u32)>) -> bool {
    forall|i: int, j: int|
        0 <= i <= j < schedule.len() ==> (#[trigger] schedule[i]).0 >= (#[trigger] schedule[j]).0
}

/// The schedule with one more event: `event` stands behind every event that
/// arrives at the same tick or later, and before every earlier one.
pub open spec fn place(schedule: Seq<(u32, i32, i32, u32)>, event: (u32, i32, i32, u32)) -> Seq<
    (u32, i32, i32, u32),
>
    decreases schedule.len(),
{
    if schedule.len() == 0 {
        seq![event]
    } else if schedule[0].0 < event.0 {
        seq![event] + schedule
    } else {
        seq![schedule[0]] + place(schedule.drop_first(), event)
    }
}

/// The schedule made of the first `n` of `events`, placed one after the
/// other. Events of one tick end up in the order in which they were given.
pub open spec fn arrange(events: Seq<(u32, i32, i32, u32)>, n: nat) -> Seq<(u32, i32, i32, u32)>
    decreases n,
{
    if n == 0 {
        Seq::empty()
    } else {
        place(arrange(events, (n - 1) as nat), events[n - 1])
    }
}

/// What is left of the schedule once every event that has arrived by `tick`
/// is taken off its end.
pub open spec fn remaining(schedule: Seq<(u32, i32, i32, u32)>, tick: u32) -> Seq<
    (u32, i32, i32, u32),
>
    decreases schedule.len(),
{
    if schedule.len() > 0 && schedule.last().0 <= tick {
        remaining(schedule.drop_last(), tick)
    } else {
        schedule
    }
}

/// The sources that the schedule contributes at `tick`: the events that
/// arrive after `tick` and less than `horizon` ticks ahead, soonest first,
/// each with the number of ticks until its arrival as starting distance.
pub open spec fn upcoming(schedule: Seq<(u32, i32, i32, u32)>, tick: u32, horizon: u32) -> Seq<
    (i32, i32, u32),
>
    decreases schedule.len(),
{
    if schedule.len() > 0 && schedule.last().0 > tick && schedule.last().0 - tick < horizon {
        seq![(schedule.last().1, schedule.last().2, (schedule.last().0 - tick) as u32)] + upcoming(
            schedule.drop_last(),
            tick,
            horizon,
        )
    } else {
        Seq::empty()
    }
}

/// Placing an event is inserting it before the first earlier event.
pub proof fn lemma_place(schedule: Seq<(u32, i32, i32, u32)>, event: (u32, i32, i32, u32), at: int)
    requires
        0 <= at <= schedule.len(),
        forall|j: int| 0 <= j < at ==> (#[trigger] schedule[j]).0 >= event.0,
        at < schedule.len() ==> schedule[at].0 < event.0,
    ensures
        place(schedule, event) == schedule.insert(at, event),
    decreases schedule.len(),
{
    if schedule.len() == 0 {
        assert(seq![event] =~= schedule.insert(at, event));
    } else if at == 0 {
        assert(seq![event] + schedule =~= schedule.insert(at, event));
    } else {
        let rest = schedule.drop_first();
        assert forall|j: int| 0 <= j < at - 1 implies (#[trigger] rest[j]).0 >= event.0 by {
            assert(rest[j] == schedule[j + 1]);
        }
        lemma_place(rest, event, at - 1);
        assert(seq![schedule[0]] + rest.insert(at - 1, event) =~= schedule.insert(at, event));
    }
}

/// Inserting an event between the later and the earlier ones keeps the
/// order.
pub proof fn lemma_insert_keeps_order(
    schedule: Seq<(u32, i32, i32, u32)>,
    event: (u32, i32, i32, u32),
    at: int,
)
    requires
        latest_first(schedule),
        0 <= at <= schedule.len(),
        forall|j: int| 0 <= j < at ==> (#[trigger] schedule[j]).0 >= event.0,
        at < schedule.len() ==> schedule[at].0 < event.0,
    ensures
        latest_first(schedule.insert(at, event)),
{
    let after = schedule.insert(at, event);
    assert forall|i: int, j: int| 0 <= i <= j < after.len() implies (#[trigger] after[i]).0 >= (
    #[trigger] after[j]).0 by {
        if i < at {
            assert(after[i] == schedule[i]);
        } else if i > at {
            assert(after[i] == schedule[i - 1]);
        }
        if j < at {
            assert(after[j] == schedule[j]);
        } else if j > at {
            assert(after[j] == schedule[j - 1]);
            assert(schedule[at].0 >= schedule[j - 1].0);
        }
    }
}

/// An arranged schedule is in order and holds exactly the events given.
pub proof fn lemma_arrange(events: Seq<(u32, i32, i32, u32)>, n: nat)
    requires
        n <= events.len(),
    ensures
        latest_first(arrange(events, n)),
        arrange(events, n).len() == n,
        arrange(events, n).to_multiset() == events.take(n as int).to_multiset(),
    decreases n,
{
    broadcast use vstd::seq_lib::group_to_multiset_ensures;

    if n == 0 {
        assert(events.take(0) =~= Seq::empty());
    } else {
        let before = arrange(events, (n - 1) as nat);
        let event = events[n - 1];
        lemma_arrange(events, (n - 1) as nat);
        let at = first_earlier(before, event, 0);
        lemma_first_earlier(before, event, 0);
        lemma_place(before, event, at);
        lemma_insert_keeps_order(before, event, at);
        assert(events.take(n as int) =~= events.take(n - 1).push(event));
    }
}

/// The index, from `from` on, of the first event that arrives before
/// `event`, or the length of the schedule if there is none.
pub open spec fn first_earlier(
    schedule: Seq<(u32, i32, i32, u32)>,
    event: (u32, i32, i32, u32),
    from: int,
) -> int
    decreases schedule.len() - from,
{
    if 0 <= from < schedule.len() && schedule[from].0 >= event.0 {
        first_earlier(schedule, event, from + 1)
    } else {
        from
    }
}

/// Every event before the first earlier one arrives at the tick of `event`
/// or later.
pub proof fn lemma_first_earlier(
    schedule: Seq<(u32, i32, i32, u32)>,
    event: (u32, i32, i32, u32),
    from: int,
)
    requires
        0 <= from <= schedule.len(),
    ensures
        from <= first_earlier(schedule, event, from) <= schedule.len(),
        forall|j: int|
            from <= j < first_earlier(schedule, event, from) ==> (#[trigger] schedule[j]).0
                >= event.0,
        first_earlier(schedule, event, from) < schedule.len() ==> schedule[first_earlier(
            schedule,
            event,
            from,
        )].0 < event.0,
    decreases schedule.len() - from,
{
    if from < schedule.len() && schedule[from].0 >= event.0 {
        lemma_first_earlier(schedule, event, from + 1);
    }
}

/// Adds one event to a schedule that is in order.
pub fn insert_event(schedule: &mut Vec<(u32, i32, i32, u32)>, event: (u32, i32, i32, u32))
    requires
        latest_first(old(schedule)@),
    ensures
        final(schedule)@ == place(old(schedule)@, event),
        latest_first(final(schedule)@),
{
    let mut at: usize = 0;
    while at < schedule.len() && schedule[at].0 >= event.0
        invariant
            at <= schedule.len(),
            schedule@ == old(schedule)@,
            forall|j: int| 0 <= j < at ==> (#[trigger] schedule@[j]).0 >= event.0,
        decreases schedule.len() - at,
    {
        at += 1;
    }
    proof {
        lemma_place(schedule@, event, at as int);
        lemma_insert_keeps_order(schedule@, event, at as int);
    }
    schedule.insert(at, event);
}

/// Puts the events in order of arrival, latest first, keeping the given
/// order among events of one tick.
pub fn schedule_of(events: &Vec<(u32, i32, i32, u32)>) -> (schedule: Vec<(u32, i32, i32, u32)>)
    ensures
        schedule@ == arrange(events@, events@.len()),
        latest_first(schedule@),
        schedule@.to_multiset() == events@.to_multiset(),
{
    let mut schedule: Vec<(u32, i32, i32, u32)> = Vec::new();
    let mut n: usize = 0;
    while n < events.len()
        invariant
            n <= events.len(),
            schedule@ == arrange(events@, n as nat),
            latest_first(schedule@),
        decreases events.len() - n,
    {
        insert_event(&mut schedule, events[n]);
        n += 1;
    }
    proof {
        lemma_arrange(events@, events@.len());
        assert(events@.take(events@.len() as int) =~= events@);
    }
    schedule
}

/// The first `n` events of a schedule that is in order are in order.
pub proof fn lemma_front_in_order(schedule: Seq<(u32, i32, i32, u32)>, n: int)
    requires
        latest_first(schedule),
        0 <= n <= schedule.len(),
    ensures
        latest_first(schedule.take(n)),
{
    let front = schedule.take(n);
    assert forall|i: int, j: int| 0 <= i <= j < front.len() implies (#[trigger] front[i]).0 >= (
    #[trigger] front[j]).0 by {
        assert(front[i] == schedule[i]);
        assert(front[j] == schedule[j]);
    }
}

/// Whether every event of the schedule arrives after `tick`.
pub open spec fn all_ahead(schedule: Seq<(u32, i32, i32, u32)>, tick: u32) -> bool {
    forall|j: int| 0 <= j < schedule.len() ==> (#[trigger] schedule[j]).0 > tick
}

/// The source that an event of the schedule contributes at `tick`.
pub open spec fn source_of(event: (u32, i32, i32, u32), tick: u32) -> (i32, i32, u32) {
    (event.1, event.2, (event.0 - tick) as u32)
}

/// Which events are listed as sources: exactly those that arrive less than
/// `horizon` ticks ahead.
///
/// They are the last events of the schedule, and the list gives them from
/// the end of the schedule backwards, each with the ticks until its arrival.
/// Every event before them is `horizon` ticks ahead or more and contributes
/// nothing.
pub proof fn lemma_upcoming(schedule: Seq<(u32, i32, i32, u32)>, tick: u32, horizon: u32)
    requires
        latest_first(schedule),
        all_ahead(schedule, tick),
    ensures
        upcoming(schedule, tick, horizon).len() <= schedule.len(),
        forall|k: int|
            0 <= k < upcoming(schedule, tick, horizon).len() ==> {
                let event = schedule[schedule.len() - 1 - k];
                &&& #[trigger] upcoming(schedule, tick, horizon)[k] == source_of(event, tick)
                &&& 0 < event.0 - tick < horizon
            },
        forall|i: int|
            0 <= i < schedule.len() - upcoming(schedule, tick, horizon).len() ==> (
            #[trigger] schedule[i]).0 - tick >= horizon,
    decreases schedule.len(),
{
    let listed = upcoming(schedule, tick, horizon);
    if schedule.len() > 0 && schedule.last().0 > tick && schedule.last().0 - tick < horizon {
        let fewer = schedule.drop_last();
        lemma_front_in_order(schedule, schedule.len() - 1);
        assert forall|j: int| 0 <= j < fewer.len() implies (#[trigger] fewer[j]).0 > tick by {
            assert(fewer[j] == schedule[j]);
        }
        lemma_upcoming(fewer, tick, horizon);
        let rest = upcoming(fewer, tick, horizon);
        assert forall|k: int| 0 <= k < listed.len() implies {
            let event = schedule[schedule.len() - 1 - k];
            &&& #[trigger] listed[k] == source_of(event, tick)
            &&& 0 < event.0 - tick < horizon
        } by {
            if k > 0 {
                assert(listed[k] == rest[k - 1]);
                assert(fewer[fewer.len() - 1 - (k - 1)] == schedule[schedule.len() - 1 - k]);
            }
        }
        assert forall|i: int| 0 <= i < schedule.len() - listed.len() implies (
        #[trigger] schedule[i]).0 - tick >= horizon by {
            assert(fewer[i] == schedule[i]);
        }
    } else {
        assert forall|i: int| 0 <= i < schedule.len() implies (#[trigger] schedule[i]).0 - tick
            >= horizon by {
            assert(schedule[i].0 >= schedule.last().0);
        }
    }
}

/// An event that has not arrived stays on the schedule, and is listed as a
/// source exactly when it is less than `horizon` ticks ahead; its starting
/// distance is then the number of ticks until it arrives.
///
/// So an event of tick `T` has starting distance one at tick `T - 1`, and an
/// event beyond the horizon is left out until a later tick brings it within.
pub proof fn lemma_event_ahead(
    schedule: Seq<(u32, i32, i32, u32)>,
    i: int,
    tick: u32,
    horizon: u32,
) -> (k: int)
    requires
        latest_first(schedule),
        0 <= i < schedule.len(),
        schedule[i].0 > tick,
    ensures
        i < remaining(schedule, tick).len(),
        remaining(schedule, tick)[i] == schedule[i],
        k == remaining(schedule, tick).len() - 1 - i,
        schedule[i].0 - tick < horizon <==> k < upcoming(
            remaining(schedule, tick),
            tick,
            horizon,
        ).len(),
        schedule[i].0 - tick < horizon ==> upcoming(remaining(schedule, tick), tick, horizon)[k]
            == source_of(schedule[i], tick),
{
    let left = remaining(schedule, tick);
    lemma_remaining_is_ahead(schedule, tick);
    lemma_remaining_keeps(schedule, tick, i);
    lemma_front_in_order(schedule, left.len() as int);
    lemma_upcoming(left, tick, horizon);
    let k = left.len() - 1 - i;
    let listed = upcoming(left, tick, horizon);
    if k < listed.len() {
        assert(listed[k] == source_of(left[left.len() - 1 - k], tick));
    } else {
        assert(left[i].0 - tick >= horizon);
    }
    k
}

/// Taking off the events that have arrived keeps every event that has not.
pub proof fn lemma_remaining_keeps(schedule: Seq<(u32, i32, i32, u32)>, tick: u32, i: int)
    requires
        0 <= i < schedule.len(),
        schedule[i].0 > tick,
    ensures
        i < remaining(schedule, tick).len(),
        remaining(schedule, tick)[i] == schedule[i],
    decreases schedule.len(),
{
    if schedule.len() > 0 && schedule.last().0 <= tick {
        let fewer = schedule.drop_last();
        assert(fewer[i] == schedule[i]);
        lemma_remaining_keeps(fewer, tick, i);
    }
}

/// Every event that is left after taking off those that have arrived lies
/// ahead, and taking off again changes nothing.
pub proof fn lemma_remaining_is_ahead(schedule: Seq<(u32, i32, i32, u32)>, tick: u32)
    requires
        latest_first(schedule),
    ensures
        forall|j: int|
            0 <= j < remaining(schedule, tick).len() ==> (#[trigger] remaining(schedule, tick)[j]).0
                > tick,
        remaining(remaining(schedule, tick), tick) == remaining(schedule, tick),
        remaining(schedule, tick).len() <= schedule.len(),
        remaining(schedule, tick) == schedule.take(remaining(schedule, tick).len() as int),
    decreases schedule.len(),
{
    if schedule.len() > 0 && schedule.last().0 <= tick {
        let fewer = schedule.drop_last();
        lemma_front_in_order(schedule, schedule.len() - 1);
        lemma_remaining_is_ahead(fewer, tick);
        assert(fewer.take(remaining(fewer, tick).len() as int) =~= schedule.take(
            remaining(fewer, tick).len() as int,
        ));
    } else {
        assert forall|j: int| 0 <= j < schedule.len() implies (#[trigger] schedule[j]).0 > tick by {
            assert(schedule[j].0 >= schedule.last().0);
        }
        assert(schedule.take(schedule.len() as int) =~= schedule);
    }
}

} // verus!
