//! Laws of the reconciliation pass, proved of the model.

use crate::event::EventView;
use crate::instant::Instant;
use crate::model::{
    accept, accept_all, collision_free, consistent, departing_keys, expire, faithful, holds,
    in_lockstep, initial, lemma_accept_all_consistent, lemma_expire_consistent,
    lemma_filter_positions, readings_of, reconcile, still_ahead, upcoming, Model, ReadingView,
    Scheduled,
};
use crate::registry::Series;
use vstd::prelude::*;

verus! {

/// Whether an active entry stems from a fetched reading that may be taken in.
pub open spec fn taken_from(s: Scheduled, r: ReadingView, watch: Seq<Seq<char>>, now: Instant) -> bool {
    r.admissible(watch, now) && r.event == s.event && r.due == Some(s.due)
}

/// After the fetched list is handled, the active events are those that were
/// active before, followed by events taken in from the list; every fetched
/// event that may be taken in is among them.
pub proof fn lemma_accept_all_members(
    m: Model,
    fetched: Seq<ReadingView>,
    watch: Seq<Seq<char>>,
    now: Instant,
)
    ensures
        m.active.is_prefix_of(accept_all(m, fetched, watch, now).active),
        forall|k: int|
            m.active.len() <= k < accept_all(m, fetched, watch, now).active.len() ==> exists|i: int|
                0 <= i < fetched.len() && taken_from(
                    #[trigger] accept_all(m, fetched, watch, now).active[k],
                    #[trigger] fetched[i],
                    watch,
                    now,
                ),
        forall|i: int|
            0 <= i < fetched.len() && (#[trigger] fetched[i]).admissible(watch, now) ==> holds(
                accept_all(m, fetched, watch, now).active,
                fetched[i].event,
            ),
    decreases fetched.len(),
{
    let result = accept_all(m, fetched, watch, now);
    if fetched.len() > 0 {
        let front = fetched.drop_last();
        let last = fetched.last();
        let prev = accept_all(m, front, watch, now);
        lemma_accept_all_members(m, front, watch, now);
        assert(result == accept(prev, last, watch, now));
        assert(fetched[fetched.len() - 1] == last);
        assert forall|k: int| m.active.len() <= k < result.active.len() implies exists|i: int|
            0 <= i < fetched.len() && taken_from(
                #[trigger] result.active[k],
                #[trigger] fetched[i],
                watch,
                now,
            ) by {
            if k < prev.active.len() {
                let i = choose|i: int|
                    0 <= i < front.len() && taken_from(
                        #[trigger] prev.active[k],
                        #[trigger] front[i],
                        watch,
                        now,
                    );
                assert(result.active[k] == prev.active[k]);
                assert(fetched[i] == front[i]);
                assert(taken_from(result.active[k], fetched[i], watch, now));
            } else {
                assert(taken_from(result.active[k], fetched[fetched.len() - 1], watch, now));
            }
        }
        assert forall|i: int|
            0 <= i < fetched.len() && (#[trigger] fetched[i]).admissible(watch, now) implies holds(
            result.active,
            fetched[i].event,
        ) by {
            if i < front.len() {
                assert(front[i] == fetched[i]);
                let k = choose|k: int|
                    0 <= k < prev.active.len() && (#[trigger] prev.active[k]).event == front[i].event;
                assert(result.active[k].event == fetched[i].event);
            } else if holds(prev.active, last.event) {
                let k = choose|k: int|
                    0 <= k < prev.active.len() && (#[trigger] prev.active[k]).event == last.event;
                assert(result.active[k].event == fetched[i].event);
            } else {
                assert(result.active[prev.active.len() as int].event == last.event);
            }
        }
    }
}

/// Handling a list changes nothing where every event in it that may be taken
/// in is active already.
pub proof fn lemma_accept_all_known(
    m: Model,
    fetched: Seq<ReadingView>,
    watch: Seq<Seq<char>>,
    now: Instant,
)
    requires
        forall|i: int|
            0 <= i < fetched.len() && (#[trigger] fetched[i]).admissible(watch, now) ==> holds(
                m.active,
                fetched[i].event,
            ),
    ensures
        accept_all(m, fetched, watch, now) == m,
    decreases fetched.len(),
{
    if fetched.len() > 0 {
        let front = fetched.drop_last();
        assert forall|i: int|
            0 <= i < front.len() && (#[trigger] front[i]).admissible(watch, now) implies holds(
            m.active,
            front[i].event,
        ) by {
            assert(front[i] == fetched[i]);
        }
        lemma_accept_all_known(m, front, watch, now);
        assert(fetched.last() == fetched[fetched.len() - 1]);
    }
}

/// Filtering a sequence whose elements all pass the test changes nothing.
pub proof fn lemma_filter_all(s: Seq<Scheduled>, keep: spec_fn(Scheduled) -> bool)
    requires
        forall|i: int| 0 <= i < s.len() ==> keep(#[trigger] s[i]),
    ensures
        s.filter(keep) == s,
    decreases s.len(),
{
    reveal(Seq::filter);
    if s.len() > 0 {
        let front = s.drop_last();
        assert forall|i: int| 0 <= i < front.len() implies keep(#[trigger] front[i]) by {
            assert(front[i] == s[i]);
        }
        lemma_filter_all(front, keep);
        assert(keep(s[s.len() - 1]));
        assert(front.push(s.last()) =~= s);
    } else {
        assert(s.filter(keep) =~= s);
    }
}

/// After the departures at `now`, every active event is due after `now`.
pub proof fn lemma_expire_leaves_ahead(m: Model, now: Instant)
    ensures
        forall|i: int|
            0 <= i < expire(m, now).active.len() ==> now.precedes(
                (#[trigger] expire(m, now).active[i]).due,
            ),
{
    let after = expire(m, now).active;
    assert forall|i: int| 0 <= i < after.len() implies now.precedes((#[trigger] after[i]).due) by {
        m.active.lemma_filter_pred(still_ahead(now), i);
    }
}

/// The departures at `now` change nothing where every active event is due
/// after `now`.
pub proof fn lemma_expire_ahead(m: Model, now: Instant)
    requires
        forall|i: int| 0 <= i < m.active.len() ==> now.precedes((#[trigger] m.active[i]).due),
    ensures
        expire(m, now) == m,
{
    let keep = still_ahead(now);
    assert forall|i: int| 0 <= i < m.active.len() implies keep(#[trigger] m.active[i]) by {
        assert(now.precedes(m.active[i].due));
    }
    lemma_filter_all(m.active, keep);
    assert(departing_keys(m.active, now) =~= Set::<u64>::empty());
    assert(m.series.remove_keys(Set::<u64>::empty()) =~= m.series);
}

/// Membership in a filtered sequence of active events.
pub proof fn lemma_expire_members(m: Model, now: Instant)
    ensures
        forall|s: Scheduled| #[trigger]
            expire(m, now).active.contains(s) <==> m.active.contains(s) && now.precedes(s.due),
{
    let keep = still_ahead(now);
    let after = expire(m, now).active;
    lemma_expire_leaves_ahead(m, now);
    assert forall|s: Scheduled| #[trigger]
        after.contains(s) <==> m.active.contains(s) && now.precedes(s.due) by {
        if after.contains(s) {
            m.active.lemma_filter_contains_rev(keep, s);
            let i = choose|i: int| 0 <= i < after.len() && after[i] == s;
            assert(now.precedes(after[i].due));
        }
        if m.active.contains(s) && now.precedes(s.due) {
            let k = choose|k: int| 0 <= k < m.active.len() && m.active[k] == s;
            assert(keep(m.active[k]));
            m.active.lemma_filter_contains(keep, k);
        }
    }
}

/// Whether the fetched readings agree with the active events: a fetched
/// event that is active was read as due at the instant it is active with.
/// Readings of announced times agree with every faithful state.
pub open spec fn agrees(m: Model, fetched: Seq<ReadingView>) -> bool {
    forall|k: int, i: int|
        0 <= k < m.active.len() && 0 <= i < fetched.len() && (#[trigger] m.active[k]).event == (
        #[trigger] fetched[i]).event ==> fetched[i].due == Some(m.active[k].due)
}

/// Idempotence. A second pass over the same fetched list at the same instant
/// leaves the state as the first pass left it, and performs no store
/// mutation: it sets no gauge, since handling the list once more changes
/// nothing, and it removes no series, since no event ceases to be active.
/// This holds where the readings agree with the active events, as readings
/// of announced times do.
pub proof fn law_second_pass_changes_nothing(
    m: Model,
    fetched: Seq<ReadingView>,
    watch: Seq<Seq<char>>,
    now: Instant,
)
    requires
        agrees(m, fetched),
    ensures
        ({
            let once = reconcile(m, fetched, watch, now);
            &&& accept_all(once, fetched, watch, now) == once
            &&& expire(once, now) == once
            &&& reconcile(once, fetched, watch, now) == once
        }),
{
    let taken = accept_all(m, fetched, watch, now);
    let once = reconcile(m, fetched, watch, now);
    lemma_accept_all_members(m, fetched, watch, now);
    lemma_expire_leaves_ahead(taken, now);
    lemma_expire_members(taken, now);
    assert forall|i: int|
        0 <= i < fetched.len() && (#[trigger] fetched[i]).admissible(watch, now) implies holds(
        once.active,
        fetched[i].event,
    ) by {
        let k = choose|k: int|
            0 <= k < taken.active.len() && (#[trigger] taken.active[k]).event == fetched[i].event;
        let s = taken.active[k];
        assert(taken.active.contains(s));
        if k >= m.active.len() {
            let j = choose|j: int|
                0 <= j < fetched.len() && taken_from(
                    #[trigger] taken.active[k],
                    #[trigger] fetched[j],
                    watch,
                    now,
                );
        } else {
            assert(m.active[k] == s);
        }
        assert(now.precedes(s.due));
        assert(once.active.contains(s));
        let at = choose|at: int| 0 <= at < once.active.len() && once.active[at] == s;
        assert(once.active[at].event == fetched[i].event);
    }
    lemma_accept_all_known(once, fetched, watch, now);
    lemma_expire_ahead(once, now);
}

/// Handling readings of announced times keeps a state faithful.
pub proof fn lemma_accept_all_faithful(
    m: Model,
    events: Seq<EventView>,
    watch: Seq<Seq<char>>,
    now: Instant,
)
    requires
        faithful(m),
    ensures
        faithful(accept_all(m, readings_of(events), watch, now)),
{
    let fetched = readings_of(events);
    let taken = accept_all(m, fetched, watch, now);
    lemma_accept_all_members(m, fetched, watch, now);
    assert forall|k: int| 0 <= k < taken.active.len() implies (#[trigger] taken.active[k]).event.read().due
        == Some(taken.active[k].due) by {
        if k < m.active.len() {
            assert(taken.active[k] == m.active[k]);
        } else {
            let j = choose|j: int|
                0 <= j < fetched.len() && taken_from(
                    #[trigger] taken.active[k],
                    #[trigger] fetched[j],
                    watch,
                    now,
                );
            assert(fetched[j] == events[j].read());
        }
    }
}

/// Faithfulness. Before the first pass the state is faithful, and a pass
/// over a fetched list keeps it so: every active event is due at the instant
/// that its announced time reads as. The readings of a fetched list agree
/// with every faithful state.
pub proof fn law_due_is_the_announced_time(
    m: Model,
    events: Seq<EventView>,
    watch: Seq<Seq<char>>,
    now: Instant,
)
    requires
        faithful(m),
    ensures
        faithful(initial()),
        faithful(reconcile(m, readings_of(events), watch, now)),
        agrees(m, readings_of(events)),
{
    let fetched = readings_of(events);
    let taken = accept_all(m, fetched, watch, now);
    let after = expire(taken, now);
    lemma_accept_all_faithful(m, events, watch, now);
    assert forall|k: int| 0 <= k < after.active.len() implies (#[trigger] after.active[k]).event.read().due
        == Some(after.active[k].due) by {
        assert(after.active.contains(after.active[k]));
        taken.active.lemma_filter_contains_rev(still_ahead(now), after.active[k]);
        let j = choose|j: int| 0 <= j < taken.active.len() && taken.active[j] == after.active[k];
        assert(taken.active[j].event.read().due == Some(taken.active[j].due));
    }
    assert forall|k: int, i: int|
        0 <= k < m.active.len() && 0 <= i < fetched.len() && (#[trigger] m.active[k]).event == (
        #[trigger] fetched[i]).event implies fetched[i].due == Some(m.active[k].due) by {
        assert(fetched[i] == events[i].read());
    }
}

/// What a pass leaves active: the events that were active and are due after
/// `now`, and events taken in from the fetched list. Every fetched event that
/// may be taken in is active afterwards.
pub proof fn law_active_events_after_pass(
    m: Model,
    fetched: Seq<ReadingView>,
    watch: Seq<Seq<char>>,
    now: Instant,
)
    ensures
        forall|s: Scheduled| #[trigger]
            reconcile(m, fetched, watch, now).active.contains(s) ==> now.precedes(s.due) && (
            m.active.contains(s) || exists|i: int|
                0 <= i < fetched.len() && taken_from(s, #[trigger] fetched[i], watch, now)),
        forall|s: Scheduled|
            m.active.contains(s) && now.precedes(s.due) ==> #[trigger] reconcile(
                m,
                fetched,
                watch,
                now,
            ).active.contains(s),
        forall|i: int|
            0 <= i < fetched.len() && (#[trigger] fetched[i]).admissible(watch, now) && !holds(
                m.active,
                fetched[i].event,
            ) ==> holds(reconcile(m, fetched, watch, now).active, fetched[i].event),
{
    let taken = accept_all(m, fetched, watch, now);
    let result = reconcile(m, fetched, watch, now);
    lemma_accept_all_members(m, fetched, watch, now);
    lemma_expire_members(taken, now);
    assert forall|s: Scheduled| #[trigger] result.active.contains(s) implies now.precedes(s.due) && (
    m.active.contains(s) || exists|i: int|
        0 <= i < fetched.len() && taken_from(s, #[trigger] fetched[i], watch, now)) by {
        let k = choose|k: int| 0 <= k < taken.active.len() && taken.active[k] == s;
        if k < m.active.len() {
            assert(m.active[k] == s);
        } else {
            let i = choose|i: int|
                0 <= i < fetched.len() && taken_from(
                    #[trigger] taken.active[k],
                    #[trigger] fetched[i],
                    watch,
                    now,
                );
            assert(taken_from(s, fetched[i], watch, now));
        }
    }
    assert forall|s: Scheduled| m.active.contains(s) && now.precedes(s.due) implies #[trigger] result.active.contains(
        s,
    ) by {
        let k = choose|k: int| 0 <= k < m.active.len() && m.active[k] == s;
        assert(taken.active[k] == s);
    }
    assert forall|i: int|
        0 <= i < fetched.len() && (#[trigger] fetched[i]).admissible(watch, now) && !holds(
            m.active,
            fetched[i].event,
        ) implies holds(result.active, fetched[i].event) by {
        let k = choose|k: int|
            0 <= k < taken.active.len() && (#[trigger] taken.active[k]).event == fetched[i].event;
        let s = taken.active[k];
        if k < m.active.len() {
            assert(m.active[k].event == fetched[i].event);
        }
        let j = choose|j: int|
            0 <= j < fetched.len() && taken_from(
                #[trigger] taken.active[k],
                #[trigger] fetched[j],
                watch,
                now,
            );
        assert(taken.active.contains(s));
        assert(result.active.contains(s));
        let at = choose|at: int| 0 <= at < result.active.len() && result.active[at] == s;
        assert(result.active[at].event == fetched[i].event);
    }
}

/// Handling a fetched list keeps every series and the labels it shows. A
/// series under a new key has the value 1 and shows the labels of a fetched
/// event that may be taken in. Every fetched event that may be taken in and
/// was not active has a series under its key afterwards.
pub proof fn lemma_accept_all_series(
    m: Model,
    fetched: Seq<ReadingView>,
    watch: Seq<Seq<char>>,
    now: Instant,
)
    ensures
        forall|key: u64| #[trigger]
            m.series.contains_key(key) ==> accept_all(m, fetched, watch, now).series.contains_key(key)
                && accept_all(m, fetched, watch, now).series[key].labels == m.series[key].labels,
        forall|key: u64| #[trigger]
            accept_all(m, fetched, watch, now).series.contains_key(key) && !m.series.contains_key(key)
                ==> accept_all(m, fetched, watch, now).series[key].value == 1 && exists|i: int|
                0 <= i < fetched.len() && (#[trigger] fetched[i]).admissible(watch, now)
                    && fetched[i].event.series_key() == key && accept_all(
                    m,
                    fetched,
                    watch,
                    now,
                ).series[key].labels == fetched[i].event.export_labels(),
        forall|i: int|
            0 <= i < fetched.len() && (#[trigger] fetched[i]).admissible(watch, now) && !holds(
                m.active,
                fetched[i].event,
            ) ==> accept_all(m, fetched, watch, now).series.contains_key(
                fetched[i].event.series_key(),
            ),
    decreases fetched.len(),
{
    let result = accept_all(m, fetched, watch, now);
    if fetched.len() > 0 {
        let front = fetched.drop_last();
        let last = fetched.last();
        let prev = accept_all(m, front, watch, now);
        lemma_accept_all_series(m, front, watch, now);
        lemma_accept_all_members(m, front, watch, now);
        assert(result == accept(prev, last, watch, now));
        assert(fetched[fetched.len() - 1] == last);
        assert forall|key: u64| #[trigger]
            result.series.contains_key(key) && !m.series.contains_key(key) implies result.series[key].value
            == 1 && exists|i: int|
            0 <= i < fetched.len() && (#[trigger] fetched[i]).admissible(watch, now)
                && fetched[i].event.series_key() == key && result.series[key].labels
                == fetched[i].event.export_labels() by {
            if prev.series.contains_key(key) {
                let i = choose|i: int|
                    0 <= i < front.len() && (#[trigger] front[i]).admissible(watch, now)
                        && front[i].event.series_key() == key && prev.series[key].labels
                        == front[i].event.export_labels();
                assert(fetched[i] == front[i]);
            } else {
                assert(fetched[fetched.len() - 1].admissible(watch, now));
            }
        }
        assert forall|i: int|
            0 <= i < fetched.len() && (#[trigger] fetched[i]).admissible(watch, now) && !holds(
                m.active,
                fetched[i].event,
            ) implies result.series.contains_key(fetched[i].event.series_key()) by {
            if i < front.len() {
                assert(front[i] == fetched[i]);
                assert(prev.series.contains_key(front[i].event.series_key()));
            } else if holds(prev.active, last.event) {
                let k = choose|k: int|
                    0 <= k < prev.active.len() && (#[trigger] prev.active[k]).event == last.event;
                if k < m.active.len() {
                    assert(m.active[k].event == last.event);
                }
                let j = choose|j: int|
                    0 <= j < front.len() && taken_from(
                        #[trigger] prev.active[k],
                        #[trigger] front[j],
                        watch,
                        now,
                    );
                if holds(m.active, front[j].event) {
                    let a = choose|a: int|
                        0 <= a < m.active.len() && (#[trigger] m.active[a]).event == front[j].event;
                    assert(m.active[a].event == last.event);
                }
                assert(prev.series.contains_key(front[j].event.series_key()));
            }
        }
    }
}

/// The events taken in from a fetched list are due after `now`, so the keys
/// that leave with the departures at `now` are those of events that were
/// active before.
pub proof fn lemma_departing_after_accept(
    m: Model,
    fetched: Seq<ReadingView>,
    watch: Seq<Seq<char>>,
    now: Instant,
)
    ensures
        departing_keys(accept_all(m, fetched, watch, now).active, now) == departing_keys(
            m.active,
            now,
        ),
{
    let taken = accept_all(m, fetched, watch, now).active;
    lemma_accept_all_members(m, fetched, watch, now);
    assert forall|key: u64| departing_keys(taken, now).contains(key) implies departing_keys(
        m.active,
        now,
    ).contains(key) by {
        let k = choose|k: int|
            0 <= k < taken.len() && !now.precedes((#[trigger] taken[k]).due)
                && taken[k].event.series_key() == key;
        if k >= m.active.len() {
            let j = choose|j: int|
                0 <= j < fetched.len() && taken_from(
                    #[trigger] taken[k],
                    #[trigger] fetched[j],
                    watch,
                    now,
                );
        } else {
            assert(m.active[k] == taken[k]);
            assert(!now.precedes(m.active[k].due));
        }
    }
    assert forall|key: u64| departing_keys(m.active, now).contains(key) implies departing_keys(
        taken,
        now,
    ).contains(key) by {
        let j = choose|j: int|
            0 <= j < m.active.len() && !now.precedes((#[trigger] m.active[j]).due)
                && m.active[j].event.series_key() == key;
        assert(taken[j] == m.active[j]);
        assert(!now.precedes(taken[j].due));
    }
    assert(departing_keys(taken, now) =~= departing_keys(m.active, now));
}

/// Watch-list filtering. An event of a network that is not watched is never
/// taken in: it is active after a pass only if it was active before. A series
/// that a pass creates shows the labels of a fetched event whose network is
/// watched.
pub proof fn law_unwatched_events_stay_out(
    m: Model,
    fetched: Seq<ReadingView>,
    watch: Seq<Seq<char>>,
    now: Instant,
    e: EventView,
)
    requires
        !watch.contains(e.network),
    ensures
        holds(reconcile(m, fetched, watch, now).active, e) ==> holds(m.active, e),
        forall|key: u64| #[trigger]
            reconcile(m, fetched, watch, now).series.contains_key(key) && !m.series.contains_key(key)
                ==> exists|i: int|
                0 <= i < fetched.len() && watch.contains((#[trigger] fetched[i]).event.network)
                    && fetched[i].event.series_key() == key && reconcile(
                    m,
                    fetched,
                    watch,
                    now,
                ).series[key].labels == fetched[i].event.export_labels(),
{
    let taken = accept_all(m, fetched, watch, now);
    let result = reconcile(m, fetched, watch, now);
    law_active_events_after_pass(m, fetched, watch, now);
    lemma_accept_all_series(m, fetched, watch, now);
    if holds(result.active, e) {
        let k = choose|k: int| 0 <= k < result.active.len() && (#[trigger] result.active[k]).event == e;
        let s = result.active[k];
        assert(result.active.contains(s));
        if m.active.contains(s) {
            let a = choose|a: int| 0 <= a < m.active.len() && m.active[a] == s;
            assert(m.active[a].event == e);
        }
    }
    assert forall|key: u64| #[trigger]
        result.series.contains_key(key) && !m.series.contains_key(key) implies exists|i: int|
        0 <= i < fetched.len() && watch.contains((#[trigger] fetched[i]).event.network)
            && fetched[i].event.series_key() == key && result.series[key].labels
            == fetched[i].event.export_labels() by {
        assert(taken.series.contains_key(key));
        let i = choose|i: int|
            0 <= i < fetched.len() && (#[trigger] fetched[i]).admissible(watch, now)
                && fetched[i].event.series_key() == key && taken.series[key].labels
                == fetched[i].event.export_labels();
        assert(watch.contains(fetched[i].event.network));
    }
}

/// In a consistent state no active event belongs to a network that is not
/// watched, and no series shows the labels of such an event.
pub proof fn law_only_watched_events_are_exported(m: Model, watch: Seq<Seq<char>>, e: EventView)
    requires
        consistent(m, watch),
        !watch.contains(e.network),
    ensures
        !holds(m.active, e),
        forall|key: u64| #[trigger]
            m.series.contains_key(key) ==> m.series[key].labels != e.export_labels(),
{
    if holds(m.active, e) {
        let i = choose|i: int| 0 <= i < m.active.len() && (#[trigger] m.active[i]).event == e;
        assert(watch.contains(m.active[i].event.network));
    }
    assert forall|key: u64| #[trigger] m.series.contains_key(key) implies m.series[key].labels
        != e.export_labels() by {
        let i = choose|i: int|
            0 <= i < m.active.len() && (#[trigger] m.active[i]).event.series_key() == key
                && m.series[key].labels == m.active[i].event.export_labels();
        assert(watch.contains(m.active[i].event.network));
        if m.series[key].labels == e.export_labels() {
            assert(m.active[i].event.export_labels()[0] == e.export_labels()[0]);
        }
    }
}

/// Expiry of what is active. After a pass at `now` every active event is due
/// after `now`. An event that was active and is due at `now` or was due
/// before is no longer active, and no series is left under its key.
pub proof fn law_due_events_are_gone(
    m: Model,
    fetched: Seq<ReadingView>,
    watch: Seq<Seq<char>>,
    now: Instant,
    s: Scheduled,
)
    requires
        !now.precedes(s.due),
    ensures
        !reconcile(m, fetched, watch, now).active.contains(s),
        m.active.contains(s) ==> !reconcile(m, fetched, watch, now).series.contains_key(
            s.event.series_key(),
        ),
{
    law_active_events_after_pass(m, fetched, watch, now);
    lemma_departing_after_accept(m, fetched, watch, now);
    if m.active.contains(s) {
        let j = choose|j: int| 0 <= j < m.active.len() && m.active[j] == s;
        assert(!now.precedes(m.active[j].due));
        assert(departing_keys(m.active, now).contains(s.event.series_key()));
    }
}

/// Expiry. An event whose announced time is not after `now`, or cannot be
/// read, is not active after a pass over a fetched list at `now`. If it was
/// active before the pass, no series is left under its key. So too, in a
/// consistent state, if no event that is still active shares its key.
pub proof fn law_elapsed_events_are_gone(
    m: Model,
    events: Seq<EventView>,
    watch: Seq<Seq<char>>,
    now: Instant,
    e: EventView,
)
    requires
        faithful(m),
        !upcoming(e.read().due, now),
    ensures
        !holds(reconcile(m, readings_of(events), watch, now).active, e),
        holds(m.active, e) ==> !reconcile(m, readings_of(events), watch, now).series.contains_key(
            e.series_key(),
        ),
        consistent(m, watch) && (forall|i: int|
            0 <= i < reconcile(m, readings_of(events), watch, now).active.len() ==> (
            #[trigger] reconcile(m, readings_of(events), watch, now).active[i]).event.series_key()
                != e.series_key()) ==> !reconcile(
            m,
            readings_of(events),
            watch,
            now,
        ).series.contains_key(e.series_key()),
{
    let fetched = readings_of(events);
    let taken = accept_all(m, fetched, watch, now);
    let result = reconcile(m, fetched, watch, now);
    law_due_is_the_announced_time(m, events, watch, now);
    lemma_expire_leaves_ahead(taken, now);
    if holds(result.active, e) {
        let k = choose|k: int| 0 <= k < result.active.len() && (#[trigger] result.active[k]).event == e;
        assert(now.precedes(result.active[k].due));
        assert(result.active[k].event.read().due == Some(result.active[k].due));
    }
    if holds(m.active, e) {
        let j = choose|j: int| 0 <= j < m.active.len() && (#[trigger] m.active[j]).event == e;
        assert(m.active[j].event.read().due == Some(m.active[j].due));
        assert(m.active.contains(m.active[j]));
        law_due_events_are_gone(m, fetched, watch, now, m.active[j]);
    }
    if consistent(m, watch) {
        lemma_accept_all_consistent(m, fetched, watch, now);
        lemma_expire_consistent(taken, watch, now);
    }
}

/// No premature removal. An active event that is due after `now` is still
/// active after a pass at `now`. Its series stays, with the labels it showed,
/// unless an active event that is due at `now` or was due before shares its
/// key.
pub proof fn law_upcoming_events_stay(
    m: Model,
    fetched: Seq<ReadingView>,
    watch: Seq<Seq<char>>,
    now: Instant,
    s: Scheduled,
)
    requires
        m.active.contains(s),
        now.precedes(s.due),
    ensures
        reconcile(m, fetched, watch, now).active.contains(s),
        m.series.contains_key(s.event.series_key()) && !departing_keys(m.active, now).contains(
            s.event.series_key(),
        ) ==> reconcile(m, fetched, watch, now).series.contains_key(s.event.series_key())
            && reconcile(m, fetched, watch, now).series[s.event.series_key()].labels
            == m.series[s.event.series_key()].labels,
{
    law_active_events_after_pass(m, fetched, watch, now);
    lemma_departing_after_accept(m, fetched, watch, now);
    lemma_accept_all_series(m, fetched, watch, now);
}

/// No premature removal, by announced time. In a faithful state an active
/// event whose announced time is after `now` is still active after a pass
/// over a fetched list at `now`.
pub proof fn law_events_stay_until_their_time(
    m: Model,
    events: Seq<EventView>,
    watch: Seq<Seq<char>>,
    now: Instant,
    e: EventView,
)
    requires
        faithful(m),
        holds(m.active, e),
        upcoming(e.read().due, now),
    ensures
        holds(reconcile(m, readings_of(events), watch, now).active, e),
{
    let result = reconcile(m, readings_of(events), watch, now);
    let j = choose|j: int| 0 <= j < m.active.len() && (#[trigger] m.active[j]).event == e;
    let s = m.active[j];
    assert(s.event.read().due == Some(s.due));
    assert(m.active.contains(s));
    law_upcoming_events_stay(m, readings_of(events), watch, now, s);
    let k = choose|k: int| 0 <= k < result.active.len() && result.active[k] == s;
    assert(result.active[k].event == e);
}

/// Collision awareness. Two events that agree in network, node version and
/// block height have the same series key, whatever their announced times.
/// Taking both in adds no key but that one, so a single series stands for
/// both.
pub proof fn law_same_export_key_one_series(
    m: Model,
    a: ReadingView,
    b: ReadingView,
    watch: Seq<Seq<char>>,
    now: Instant,
)
    requires
        a.event.network == b.event.network,
        a.event.node_version == b.event.node_version,
        a.event.block == b.event.block,
    ensures
        a.event.series_key() == b.event.series_key(),
        accept(accept(m, a, watch, now), b, watch, now).series.dom().subset_of(
            m.series.dom().insert(a.event.series_key()),
        ),
        a.admissible(watch, now) && !holds(m.active, a.event) ==> accept(
            accept(m, a, watch, now),
            b,
            watch,
            now,
        ).series.dom() == m.series.dom().insert(a.event.series_key()),
        a.admissible(watch, now) && b.admissible(watch, now) && a.event != b.event && !holds(
            m.active,
            a.event,
        ) && !holds(m.active, b.event) ==> accept(
            accept(m, a, watch, now),
            b,
            watch,
            now,
        ).active.len() == m.active.len() + 2,
{
    assert(a.event.export_labels() =~= b.event.export_labels());
    let first = accept(m, a, watch, now);
    let both = accept(first, b, watch, now);
    if a.admissible(watch, now) && !holds(m.active, a.event) {
        assert(both.series.dom() =~= m.series.dom().insert(a.event.series_key()));
        if b.admissible(watch, now) && a.event != b.event && !holds(m.active, b.event) {
            if holds(first.active, b.event) {
                let k = choose|k: int|
                    0 <= k < first.active.len() && (#[trigger] first.active[k]).event == b.event;
                if k < m.active.len() {
                    assert(m.active[k].event == b.event);
                }
            }
        }
    }
}

/// Filtering keeps a sequence free of collisions.
pub proof fn lemma_collision_free_filter(active: Seq<Scheduled>, keep: spec_fn(Scheduled) -> bool)
    requires
        collision_free(active),
    ensures
        collision_free(active.filter(keep)),
{
    let kept = active.filter(keep);
    assert forall|i: int, j: int|
        0 <= i < kept.len() && 0 <= j < kept.len() && i != j implies (
    #[trigger] kept[i]).event.series_key() != (#[trigger] kept[j]).event.series_key() by {
        if i < j {
            let at = lemma_filter_positions(active, keep, i, j);
            assert(active[at.0].event.series_key() != active[at.1].event.series_key());
        } else {
            let at = lemma_filter_positions(active, keep, j, i);
            assert(active[at.0].event.series_key() != active[at.1].event.series_key());
        }
    }
}

/// Handling one fetched event keeps series and active events in lockstep,
/// if it leaves the active events free of collisions.
pub proof fn lemma_accept_lockstep(m: Model, r: ReadingView, watch: Seq<Seq<char>>, now: Instant)
    requires
        in_lockstep(m),
        collision_free(accept(m, r, watch, now).active),
    ensures
        in_lockstep(accept(m, r, watch, now)),
{
    let after = accept(m, r, watch, now);
    if r.admissible(watch, now) && !holds(m.active, r.event) {
        let last = m.active.len() as int;
        assert(after.active[last].event == r.event);
        if m.series.contains_key(r.event.series_key()) {
            let i = choose|i: int|
                0 <= i < m.active.len() && (#[trigger] m.active[i]).event.series_key()
                    == r.event.series_key();
            assert(after.active[i] == m.active[i]);
            assert(after.active[i].event.series_key() != after.active[last].event.series_key());
        }
        assert forall|i: int| 0 <= i < after.active.len() implies after.series.contains_key(
            (#[trigger] after.active[i]).event.series_key(),
        ) && after.series[after.active[i].event.series_key()] == (Series {
            labels: after.active[i].event.export_labels(),
            value: 1,
        }) by {
            if i < last {
                assert(after.active[i] == m.active[i]);
                assert(after.active[i].event.series_key() != after.active[last].event.series_key());
            }
        }
        assert forall|key: u64| #[trigger] after.series.contains_key(key) implies exists|i: int|
            0 <= i < after.active.len() && (#[trigger] after.active[i]).event.series_key() == key by {
            if key == r.event.series_key() {
                assert(after.active[last].event.series_key() == key);
            } else {
                let i = choose|i: int|
                    0 <= i < m.active.len() && (#[trigger] m.active[i]).event.series_key() == key;
                assert(after.active[i] == m.active[i]);
            }
        }
    }
}

/// Handling a fetched list keeps series and active events in lockstep, if it
/// leaves the active events free of collisions.
pub proof fn lemma_accept_all_lockstep(
    m: Model,
    fetched: Seq<ReadingView>,
    watch: Seq<Seq<char>>,
    now: Instant,
)
    requires
        in_lockstep(m),
        collision_free(accept_all(m, fetched, watch, now).active),
    ensures
        in_lockstep(accept_all(m, fetched, watch, now)),
    decreases fetched.len(),
{
    if fetched.len() > 0 {
        let prev = accept_all(m, fetched.drop_last(), watch, now);
        let result = accept(prev, fetched.last(), watch, now);
        assert forall|i: int, j: int|
            0 <= i < prev.active.len() && 0 <= j < prev.active.len() && i != j implies (
        #[trigger] prev.active[i]).event.series_key() != (
        #[trigger] prev.active[j]).event.series_key() by {
            assert(result.active[i] == prev.active[i]);
            assert(result.active[j] == prev.active[j]);
        }
        lemma_accept_all_lockstep(m, fetched.drop_last(), watch, now);
        lemma_accept_lockstep(prev, fetched.last(), watch, now);
    }
}

/// The departures keep series and active events in lockstep, and the active
/// events free of collisions.
pub proof fn lemma_expire_lockstep(m: Model, now: Instant)
    requires
        in_lockstep(m),
        collision_free(m.active),
    ensures
        in_lockstep(expire(m, now)),
        collision_free(expire(m, now).active),
{
    let keep = still_ahead(now);
    let after = expire(m, now);
    lemma_collision_free_filter(m.active, keep);
    lemma_expire_leaves_ahead(m, now);
    assert forall|i: int| 0 <= i < after.active.len() implies after.series.contains_key(
        (#[trigger] after.active[i]).event.series_key(),
    ) && after.series[after.active[i].event.series_key()] == (Series {
        labels: after.active[i].event.export_labels(),
        value: 1,
    }) by {
        let x = after.active[i];
        assert(after.active.contains(x));
        m.active.lemma_filter_contains_rev(keep, x);
        let a = choose|a: int| 0 <= a < m.active.len() && m.active[a] == x;
        assert(m.series.contains_key(m.active[a].event.series_key()));
        if departing_keys(m.active, now).contains(x.event.series_key()) {
            let b = choose|b: int|
                0 <= b < m.active.len() && !now.precedes((#[trigger] m.active[b]).due)
                    && m.active[b].event.series_key() == x.event.series_key();
            assert(now.precedes(x.due));
            assert(a != b);
            assert(m.active[a].event.series_key() != m.active[b].event.series_key());
        }
    }
    assert forall|key: u64| #[trigger] after.series.contains_key(key) implies exists|i: int|
        0 <= i < after.active.len() && (#[trigger] after.active[i]).event.series_key() == key by {
        let a = choose|a: int|
            0 <= a < m.active.len() && (#[trigger] m.active[a]).event.series_key() == key;
        assert(now.precedes(m.active[a].due));
        assert(keep(m.active[a]));
        m.active.lemma_filter_contains(keep, a);
        let i = choose|i: int| 0 <= i < after.active.len() && after.active[i] == m.active[a];
        assert(after.active[i].event.series_key() == key);
    }
}

/// Lockstep. The state before the first pass has exactly the series of its
/// active events, namely none. A pass keeps it so, as long as no two events
/// that it holds active share a series key: afterwards every active event
/// has a series with its own labels and the value 1, and there is no other
/// series.
pub proof fn law_series_match_active_events(
    m: Model,
    fetched: Seq<ReadingView>,
    watch: Seq<Seq<char>>,
    now: Instant,
)
    requires
        in_lockstep(m),
        collision_free(accept_all(m, fetched, watch, now).active),
    ensures
        in_lockstep(initial()),
        in_lockstep(reconcile(m, fetched, watch, now)),
        collision_free(reconcile(m, fetched, watch, now).active),
{
    lemma_accept_all_lockstep(m, fetched, watch, now);
    lemma_expire_lockstep(accept_all(m, fetched, watch, now), now);
}

/// Consistency. The state before the first pass is consistent, and a pass
/// keeps it so: no event is active twice, every active event is watched, and
/// every series has the value 1 and shows the labels of an active event.
pub proof fn law_passes_keep_the_state_consistent(
    m: Model,
    fetched: Seq<ReadingView>,
    watch: Seq<Seq<char>>,
    now: Instant,
)
    requires
        consistent(m, watch),
    ensures
        consistent(initial(), watch),
        consistent(reconcile(m, fetched, watch, now), watch),
{
    lemma_accept_all_consistent(m, fetched, watch, now);
    lemma_expire_consistent(accept_all(m, fetched, watch, now), watch, now);
}

} // verus!
