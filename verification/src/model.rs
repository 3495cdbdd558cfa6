//! What a reconciliation pass does, stated over values: the active events as
//! a sequence in which no event occurs twice, and the exported series as a
//! map.

use crate::event::EventView;
use crate::instant::{rfc3339_instant, Instant};
use crate::registry::{series_after_set, series_id, Series};
use vstd::prelude::*;

verus! {

/// A fetched event and its announced time as read; `None` where the
/// timestamp could not be read.
pub ghost struct ReadingView {
    pub event: EventView,
    pub due: Option<Instant>,
}

/// An active event and the instant it is due.
pub ghost struct Scheduled {
    pub event: EventView,
    pub due: Instant,
}

/// The state that passes act on.
pub ghost struct Model {
    /// The active events, oldest first.
    pub active: Seq<Scheduled>,
    /// The exported series, by key.
    pub series: Map<u64, Series>,
}

/// The state before the first pass.
pub open spec fn initial() -> Model {
    Model { active: Seq::empty(), series: Map::empty() }
}

/// Whether an announced time, as read, lies strictly after `now`. A
/// timestamp that could not be read is never upcoming.
pub open spec fn upcoming(due: Option<Instant>, now: Instant) -> bool {
    match due {
        Some(at) => now.precedes(at),
        None => false,
    }
}

impl EventView {
    /// The key of the event's series.
    pub open spec fn series_key(self) -> u64 {
        series_id(self.export_labels())
    }

    /// The event with its announced time read as an RFC 3339 timestamp.
    pub open spec fn read(self) -> ReadingView {
        ReadingView { event: self, due: rfc3339_instant(self.estimated_upgrade_time) }
    }
}

/// A list of events, each with its announced time read.
pub open spec fn readings_of(events: Seq<EventView>) -> Seq<ReadingView> {
    Seq::new(events.len(), |i: int| events[i].read())
}

impl ReadingView {
    /// Whether a pass at `now` may take the event in: its network is watched,
    /// its announced time could be read and lies after `now`.
    pub open spec fn admissible(self, watch: Seq<Seq<char>>, now: Instant) -> bool {
        watch.contains(self.event.network) && upcoming(self.due, now)
    }
}

/// Whether an event is among the active ones.
pub open spec fn holds(active: Seq<Scheduled>, e: EventView) -> bool {
    exists|i: int| 0 <= i < active.len() && (#[trigger] active[i]).event == e
}

/// The test that keeps an event active at `now`.
pub open spec fn still_ahead(now: Instant) -> spec_fn(Scheduled) -> bool {
    |s: Scheduled| now.precedes(s.due)
}

/// Handling one fetched event: an admissible event that is not yet active has
/// its gauge set to 1 and becomes active; any other event changes nothing.
pub open spec fn accept(m: Model, r: ReadingView, watch: Seq<Seq<char>>, now: Instant) -> Model {
    if r.admissible(watch, now) && !holds(m.active, r.event) {
        Model {
            active: m.active.push(Scheduled { event: r.event, due: r.due->0 }),
            series: series_after_set(m.series, r.event.export_labels(), 1),
        }
    } else {
        m
    }
}

/// Handling a fetched list, event by event in the order of the list.
pub open spec fn accept_all(m: Model, fetched: Seq<ReadingView>, watch: Seq<Seq<char>>, now: Instant) -> Model
    decreases fetched.len(),
{
    if fetched.len() == 0 {
        m
    } else {
        accept(accept_all(m, fetched.drop_last(), watch, now), fetched.last(), watch, now)
    }
}

/// The series keys of the active events that are due at `now` or were due
/// before.
pub open spec fn departing_keys(active: Seq<Scheduled>, now: Instant) -> Set<u64> {
    Set::new(
        |key: u64|
            exists|i: int|
                0 <= i < active.len() && !now.precedes((#[trigger] active[i]).due)
                    && active[i].event.series_key() == key,
    )
}

/// Dropping what is due: such events leave the active sequence, and the
/// series under their keys leave the store.
pub open spec fn expire(m: Model, now: Instant) -> Model {
    Model {
        active: m.active.filter(still_ahead(now)),
        series: m.series.remove_keys(departing_keys(m.active, now)),
    }
}

/// One reconciliation pass: arrivals first, departures second.
pub open spec fn reconcile(m: Model, fetched: Seq<ReadingView>, watch: Seq<Seq<char>>, now: Instant) -> Model {
    expire(accept_all(m, fetched, watch, now), now)
}

/// What holds of the state between passes: no event is active twice, every
/// active event is watched, and every series has the value 1 and belongs to
/// an active event whose labels it shows.
pub open spec fn consistent(m: Model, watch: Seq<Seq<char>>) -> bool {
    &&& forall|i: int, j: int|
        0 <= i < m.active.len() && 0 <= j < m.active.len() && i != j ==> (#[trigger] m.active[i]).event
            != (#[trigger] m.active[j]).event
    &&& forall|i: int|
        0 <= i < m.active.len() ==> watch.contains((#[trigger] m.active[i]).event.network)
    &&& forall|key: u64| #[trigger]
        m.series.contains_key(key) ==> m.series[key].value == 1 && exists|i: int|
            0 <= i < m.active.len() && (#[trigger] m.active[i]).event.series_key() == key
                && m.series[key].labels == m.active[i].event.export_labels()
}

/// Whether every active event is due at the instant that its announced time
/// reads as.
pub open spec fn faithful(m: Model) -> bool {
    forall|i: int|
        0 <= i < m.active.len() ==> (#[trigger] m.active[i]).event.read().due == Some(
            m.active[i].due,
        )
}

/// Whether no two different active events share a series key.
pub open spec fn collision_free(active: Seq<Scheduled>) -> bool {
    forall|i: int, j: int|
        0 <= i < active.len() && 0 <= j < active.len() && i != j ==> (
        #[trigger] active[i]).event.series_key() != (#[trigger] active[j]).event.series_key()
}

/// Whether the series are exactly those of the active events: each active
/// event has a series with its own labels and the value 1, and there is no
/// other series.
pub open spec fn in_lockstep(m: Model) -> bool {
    &&& forall|i: int|
        0 <= i < m.active.len() ==> m.series.contains_key(
            (#[trigger] m.active[i]).event.series_key(),
        ) && m.series[m.active[i].event.series_key()] == (Series {
            labels: m.active[i].event.export_labels(),
            value: 1,
        })
    &&& forall|key: u64| #[trigger]
        m.series.contains_key(key) ==> exists|i: int|
            0 <= i < m.active.len() && (#[trigger] m.active[i]).event.series_key() == key
}

/// Handling one fetched event keeps the state consistent.
pub proof fn lemma_accept_consistent(m: Model, r: ReadingView, watch: Seq<Seq<char>>, now: Instant)
    requires
        consistent(m, watch),
    ensures
        consistent(accept(m, r, watch, now), watch),
{
    let after = accept(m, r, watch, now);
    if r.admissible(watch, now) && !holds(m.active, r.event) {
        let last = m.active.len() as int;
        assert(after.active[last].event == r.event);
        assert forall|i: int, j: int|
            0 <= i < after.active.len() && 0 <= j < after.active.len() && i != j implies (
        #[trigger] after.active[i]).event != (#[trigger] after.active[j]).event by {
            if i < last {
                assert(m.active[i].event != r.event);
            }
            if j < last {
                assert(m.active[j].event != r.event);
            }
        }
        assert forall|key: u64| #[trigger] after.series.contains_key(key) implies after.series[key].value
            == 1 && exists|i: int|
            0 <= i < after.active.len() && (#[trigger] after.active[i]).event.series_key() == key
                && after.series[key].labels == after.active[i].event.export_labels() by {
            if key == r.event.series_key() && !m.series.contains_key(key) {
                assert(after.active[last].event.series_key() == key);
            } else {
                assert(m.series.contains_key(key));
                let i = choose|i: int|
                    0 <= i < m.active.len() && (#[trigger] m.active[i]).event.series_key() == key
                        && m.series[key].labels == m.active[i].event.export_labels();
                assert(after.active[i] == m.active[i]);
            }
        }
    }
}

/// Handling a fetched list keeps the state consistent.
pub proof fn lemma_accept_all_consistent(
    m: Model,
    fetched: Seq<ReadingView>,
    watch: Seq<Seq<char>>,
    now: Instant,
)
    requires
        consistent(m, watch),
    ensures
        consistent(accept_all(m, fetched, watch, now), watch),
    decreases fetched.len(),
{
    if fetched.len() > 0 {
        lemma_accept_all_consistent(m, fetched.drop_last(), watch, now);
        lemma_accept_consistent(
            accept_all(m, fetched.drop_last(), watch, now),
            fetched.last(),
            watch,
            now,
        );
    }
}

/// Filtering keeps the order of what stays: two positions of the filtered
/// sequence come from two positions of the sequence, in the same order.
pub proof fn lemma_filter_positions(s: Seq<Scheduled>, keep: spec_fn(Scheduled) -> bool, i: int, j: int) -> (at:
    (int, int))
    requires
        0 <= i < j < s.filter(keep).len(),
    ensures
        0 <= at.0 < at.1 < s.len(),
        s[at.0] == s.filter(keep)[i],
        s[at.1] == s.filter(keep)[j],
    decreases s.len(),
{
    reveal(Seq::filter);
    let front = s.drop_last();
    let kept = front.filter(keep);
    if keep(s.last()) && j == kept.len() {
        assert(s.filter(keep)[i] == kept[i]);
        assert(kept.contains(kept[i]));
        front.lemma_filter_contains_rev(keep, kept[i]);
        let a = choose|a: int| 0 <= a < front.len() && front[a] == kept[i];
        (a, s.len() - 1)
    } else {
        assert(s.filter(keep)[i] == kept[i]);
        assert(s.filter(keep)[j] == kept[j]);
        let at = lemma_filter_positions(front, keep, i, j);
        at
    }
}

/// The departures keep the state consistent.
pub proof fn lemma_expire_consistent(m: Model, watch: Seq<Seq<char>>, now: Instant)
    requires
        consistent(m, watch),
    ensures
        consistent(expire(m, now), watch),
{
    let after = expire(m, now);
    let keep = still_ahead(now);
    assert forall|i: int, j: int|
        0 <= i < after.active.len() && 0 <= j < after.active.len() && i != j implies (
    #[trigger] after.active[i]).event != (#[trigger] after.active[j]).event by {
        if i < j {
            let at = lemma_filter_positions(m.active, keep, i, j);
            assert(m.active[at.0].event != m.active[at.1].event);
        } else {
            let at = lemma_filter_positions(m.active, keep, j, i);
            assert(m.active[at.0].event != m.active[at.1].event);
        }
    }
    assert forall|i: int| 0 <= i < after.active.len() implies watch.contains(
        (#[trigger] after.active[i]).event.network,
    ) by {
        assert(after.active.contains(after.active[i]));
        m.active.lemma_filter_contains_rev(keep, after.active[i]);
        let j = choose|j: int| 0 <= j < m.active.len() && m.active[j] == after.active[i];
        assert(watch.contains(m.active[j].event.network));
    }
    assert forall|key: u64| #[trigger] after.series.contains_key(key) implies after.series[key].value
        == 1 && exists|i: int|
        0 <= i < after.active.len() && (#[trigger] after.active[i]).event.series_key() == key
            && after.series[key].labels == after.active[i].event.export_labels() by {
        assert(m.series.contains_key(key));
        assert(!departing_keys(m.active, now).contains(key));
        let j = choose|j: int|
            0 <= j < m.active.len() && (#[trigger] m.active[j]).event.series_key() == key
                && m.series[key].labels == m.active[j].event.export_labels();
        assert(now.precedes(m.active[j].due));
        assert(keep(m.active[j]));
        m.active.lemma_filter_contains(keep, j);
        let i = choose|i: int| 0 <= i < after.active.len() && after.active[i] == m.active[j];
        assert(after.active[i].event.series_key() == key);
    }
}

} // verus!
