//! The reconciler: the active events and their exported series, kept in step
//! across repeated passes.

use crate::event::{event_views, EventView, UpgradeEvent};
use crate::instant::{read_rfc3339, Instant};
use crate::laws::law_due_is_the_announced_time;
use crate::model::{
    accept, accept_all, consistent, departing_keys, expire, faithful, holds, initial,
    lemma_accept_consistent, lemma_expire_consistent, readings_of, reconcile, still_ahead,
    upcoming, Model, ReadingView, Scheduled,
};
use crate::registry::{
    create_store, error_text, gauge_options_accepted, register_store, remove_series, set_series,
    store_label_names, store_series, texts, SeriesStore,
};
use vstd::prelude::*;

verus! {

/// Why a fetch produced no list of events.
#[derive(Debug)]
pub enum FetchError {
    /// The source could not be reached, answered with a failure status or
    /// timed out.
    Transport(String),
    /// The source answered, but not with a list of events.
    MalformedPayload(String),
}

/// The metric store refused an operation.
#[derive(Debug)]
pub struct RegistryError {
    pub message: String,
}

/// How many store mutations a pass performed.
#[derive(Clone, Copy, Debug, PartialEq, Eq, Structural)]
pub struct PassSummary {
    /// Gauges set, one for each event that became active.
    pub added: usize,
    /// Series removals, one for each event that ceased to be active.
    pub removed: usize,
}

/// A fetched event together with its announced time as read: `None` where
/// the timestamp could not be read.
#[derive(Debug)]
pub struct Reading {
    pub event: UpgradeEvent,
    pub due: Option<Instant>,
}

impl View for Reading {
    type V = ReadingView;

    open spec fn view(&self) -> ReadingView {
        ReadingView { event: self.event@, due: self.due }
    }
}

impl Reading {
    /// An event with its announced time read as an RFC 3339 timestamp.
    pub fn of(event: &UpgradeEvent) -> (reading: Reading)
        ensures
            reading@ == event@.read(),
    {
        Reading {
            event: event.duplicate(),
            due: read_rfc3339(event.estimated_upgrade_time.as_str()),
        }
    }
}

/// The values of a list of readings.
pub open spec fn reading_views(readings: Seq<Reading>) -> Seq<ReadingView> {
    Seq::new(readings.len(), |i: int| readings[i]@)
}

/// An active event and the instant it is due.
struct ActiveEntry {
    event: UpgradeEvent,
    due: Instant,
}

/// Owner of the active events and of the gauge vector that exports them.
pub struct Reconciler {
    watch_list: Vec<String>,
    active: Vec<ActiveEntry>,
    store: SeriesStore,
}

/// The label names of an exported series, in the order of its label values.
pub open spec fn export_label_names() -> Seq<Seq<char>> {
    seq!["network"@, "node_version"@, "block"@]
}

/// The values of the active entries.
spec fn entry_views(entries: Seq<ActiveEntry>) -> Seq<Scheduled> {
    Seq::new(entries.len(), |i: int| Scheduled { event: entries[i].event@, due: entries[i].due })
}

/// Whether an announced time, as read, lies strictly after `now`.
pub fn is_upcoming_at(due: Option<Instant>, now: Instant) -> (ahead: bool)
    ensures
        ahead == upcoming(due, now),
{
    match due {
        Some(at) => now.is_before(&at),
        None => false,
    }
}

/// The label names of an exported series.
fn label_names() -> (names: Vec<String>)
    ensures
        texts(names@) == export_label_names(),
{
    let mut names: Vec<String> = Vec::new();
    names.push(String::from_str("network"));
    names.push(String::from_str("node_version"));
    names.push(String::from_str("block"));
    assert(texts(names@) =~= export_label_names());
    names
}

/// The departing keys among the first `j + 1` active events, from those among
/// the first `j`.
proof fn lemma_departing_keys_step(active: Seq<Scheduled>, j: int, now: Instant)
    requires
        0 <= j < active.len(),
    ensures
        departing_keys(active.take(j + 1), now) == if now.precedes(active[j].due) {
            departing_keys(active.take(j), now)
        } else {
            departing_keys(active.take(j), now).insert(active[j].event.series_key())
        },
{
    let before = departing_keys(active.take(j), now);
    let after = departing_keys(active.take(j + 1), now);
    let expected = if now.precedes(active[j].due) {
        before
    } else {
        before.insert(active[j].event.series_key())
    };
    assert forall|key: u64| after.contains(key) implies expected.contains(key) by {
        let i = choose|i: int|
            0 <= i < active.take(j + 1).len() && !now.precedes(
                (#[trigger] active.take(j + 1)[i]).due,
            ) && active.take(j + 1)[i].event.series_key() == key;
        if i < j {
            assert(active.take(j)[i] == active.take(j + 1)[i]);
            assert(!now.precedes(active.take(j)[i].due));
        }
    }
    assert forall|key: u64| expected.contains(key) implies after.contains(key) by {
        if before.contains(key) {
            let i = choose|i: int|
                0 <= i < active.take(j).len() && !now.precedes((#[trigger] active.take(j)[i]).due)
                    && active.take(j)[i].event.series_key() == key;
            assert(active.take(j + 1)[i] == active.take(j)[i]);
            assert(!now.precedes(active.take(j + 1)[i].due));
        } else {
            assert(active.take(j + 1)[j] == active[j]);
            assert(!now.precedes(active.take(j + 1)[j].due));
        }
    }
    assert(after =~= expected);
}

impl Reconciler {
    /// The active events and the exported series.
    pub closed spec fn model(&self) -> Model {
        Model { active: entry_views(self.active@), series: store_series(self.store) }
    }

    /// The names of the watched networks.
    pub closed spec fn watch(&self) -> Seq<Seq<char>> {
        texts(self.watch_list@)
    }

    /// The invariant of the reconciler. It implies that the state is
    /// consistent.
    pub closed spec fn wf(&self) -> bool {
        &&& consistent(self.model(), self.watch())
        &&& store_label_names(self.store) == export_label_names()
    }

    /// A well-formed reconciler is in a consistent state.
    pub proof fn lemma_wf_consistent(&self)
        requires
            self.wf(),
        ensures
            consistent(self.model(), self.watch()),
    {
    }

    /// A reconciler for the given watch list, with no active event, over a new
    /// gauge vector of the given metric name and help text. The gauge vector
    /// is refused exactly when the store does not accept the name and the
    /// help text.
    pub fn new(metric_name: &str, help: &str, watch_list: Vec<String>) -> (made: Result<
        Reconciler,
        RegistryError,
    >)
        ensures
            made.is_ok() == gauge_options_accepted(metric_name@, help@, export_label_names()),
            made matches Ok(r) ==> r.wf() && r.model() == initial() && r.watch() == texts(
                watch_list@,
            ),
    {
        let names = label_names();
        match create_store(metric_name, help, &names) {
            Ok(store) => {
                let made = Reconciler { watch_list, active: Vec::new(), store };
                assert(made.model().active =~= initial().active);
                Ok(made)
            },
            Err(error) => Err(RegistryError { message: error_text(&error) }),
        }
    }

    /// Offers the gauge vector to the process-wide default registry, from
    /// which a scrape reads it. Whether the registry takes it depends on what
    /// was registered before.
    pub fn register(&self) -> (done: Result<(), RegistryError>) {
        registration_outcome(register_store(&self.store))
    }

    /// Whether a network is on the watch list.
    pub fn watches(&self, network: &String) -> (watched: bool)
        ensures
            watched == self.watch().contains(network@),
    {
        let mut i: usize = 0;
        while i < self.watch_list.len()
            invariant
                i <= self.watch_list.len(),
                forall|k: int| 0 <= k < i ==> self.watch()[k] != network@,
            decreases self.watch_list.len() - i,
        {
            if self.watch_list[i] == *network {
                assert(self.watch()[i as int] == network@);
                return true;
            }
            i += 1;
        }
        false
    }

    /// Whether an event is active.
    pub fn is_active(&self, event: &UpgradeEvent) -> (found: bool)
        ensures
            found == holds(self.model().active, event@),
    {
        let mut i: usize = 0;
        while i < self.active.len()
            invariant
                i <= self.active.len(),
                forall|k: int| 0 <= k < i ==> (#[trigger] self.model().active[k]).event != event@,
            decreases self.active.len() - i,
        {
            if self.active[i].event.same_record(event) {
                assert(self.model().active[i as int].event == event@);
                return true;
            }
            i += 1;
        }
        false
    }

    /// The number of active events.
    pub fn active_count(&self) -> (count: usize)
        ensures
            count == self.model().active.len(),
    {
        self.active.len()
    }

    /// Copies of the active events, oldest first.
    pub fn active_events(&self) -> (events: Vec<UpgradeEvent>)
        ensures
            events@.len() == self.model().active.len(),
            forall|i: int|
                0 <= i < events@.len() ==> (#[trigger] events@[i])@ == self.model().active[i].event,
    {
        let mut events: Vec<UpgradeEvent> = Vec::new();
        let mut i: usize = 0;
        while i < self.active.len()
            invariant
                i <= self.active.len(),
                events@.len() == i,
                forall|k: int|
                    0 <= k < i ==> (#[trigger] events@[k])@ == self.model().active[k].event,
            decreases self.active.len() - i,
        {
            events.push(self.active[i].event.duplicate());
            i += 1;
        }
        events
    }

    /// The arrivals of a pass: handles the fetched readings one by one.
    fn take_in(&mut self, fetched: &Vec<Reading>, now: Instant) -> (added: usize)
        requires
            old(self).wf(),
        ensures
            final(self).wf(),
            final(self).watch() == old(self).watch(),
            final(self).model() == accept_all(
                old(self).model(),
                reading_views(fetched@),
                old(self).watch(),
                now,
            ),
            added == final(self).model().active.len() - old(self).model().active.len(),
    {
        let ghost start = self.model();
        let ghost watch = self.watch();
        let ghost views = reading_views(fetched@);
        let mut added: usize = 0;
        let mut i: usize = 0;
        while i < fetched.len()
            invariant
                i <= fetched.len(),
                self.wf(),
                self.watch() == watch,
                views == reading_views(fetched@),
                self.model() == accept_all(start, views.take(i as int), watch, now),
                added == self.model().active.len() - start.active.len(),
                added <= i,
            decreases fetched.len() - i,
        {
            let reading = &fetched[i];
            let ghost before = self.model();
            proof {
                assert(views.take(i + 1).drop_last() =~= views.take(i as int));
                assert(views.take(i + 1).last() == reading@);
                lemma_accept_consistent(before, reading@, watch, now);
            }
            if self.watches(&reading.event.network) && is_upcoming_at(reading.due, now)
                && !self.is_active(&reading.event) {
                let labels = reading.event.export_labels();
                let done = set_series(&mut self.store, &labels, 1);
                assert(done.is_ok()) by {
                    assert(export_label_names().len() == 3);
                    assert(reading.event@.export_labels().len() == 3);
                    assert(texts(labels@).len() == labels@.len());
                }
                self.active.push(
                    ActiveEntry { event: reading.event.duplicate(), due: reading.due.unwrap() },
                );
                added += 1;
                assert(self.model().active =~= before.active.push(
                    Scheduled { event: reading.event@, due: reading.due->0 },
                ));
            }
            assert(self.model() == accept(before, reading@, watch, now));
            i += 1;
        }
        assert(views.take(fetched.len() as int) =~= views);
        added
    }

    /// The departures of a pass: drops the active events that are due.
    fn drop_elapsed(&mut self, now: Instant) -> (removed: usize)
        requires
            old(self).wf(),
        ensures
            final(self).wf(),
            final(self).watch() == old(self).watch(),
            final(self).model() == expire(old(self).model(), now),
            removed == old(self).model().active.len() - final(self).model().active.len(),
    {
        let ghost start = self.model();
        let ghost watch = self.watch();
        let ghost entries = self.active@;
        let mut kept: Vec<ActiveEntry> = Vec::new();
        let mut removed: usize = 0;
        let mut j: usize = 0;
        while j < self.active.len()
            invariant
                j <= self.active.len(),
                self.active@ == entries,
                start.active == entry_views(entries),
                self.watch() == watch,
                store_label_names(self.store) == export_label_names(),
                store_series(self.store) == start.series.remove_keys(
                    departing_keys(start.active.take(j as int), now),
                ),
                entry_views(kept@) == start.active.take(j as int).filter(still_ahead(now)),
                removed + kept.len() == j,
            decreases self.active.len() - j,
        {
            let entry = &self.active[j];
            proof {
                reveal(Seq::filter);
                assert(start.active.take(j + 1).drop_last() =~= start.active.take(j as int));
                assert(start.active[j as int] == Scheduled { event: entry.event@, due: entry.due });
                assert(start.active.take(j + 1).last() == start.active[j as int]);
                lemma_departing_keys_step(start.active, j as int, now);
            }
            if now.is_before(&entry.due) {
                let ghost kept_before = kept@;
                kept.push(ActiveEntry { event: entry.event.duplicate(), due: entry.due });
                assert(entry_views(kept@) =~= entry_views(kept_before).push(
                    start.active[j as int],
                ));
            } else {
                let labels = entry.event.export_labels();
                let ghost series_before = store_series(self.store);
                let done = remove_series(&mut self.store, &labels);
                assert(texts(labels@).len() == labels@.len());
                assert(export_label_names().len() == 3);
                assert(entry.event@.export_labels().len() == 3);
                assert(store_series(self.store) =~= series_before.remove(entry.event@.series_key()));
                assert(store_series(self.store) =~= start.series.remove_keys(
                    departing_keys(start.active.take(j + 1), now),
                ));
                removed += 1;
            }
            j += 1;
        }
        assert(start.active.take(self.active.len() as int) =~= start.active);
        self.active = kept;
        proof {
            lemma_expire_consistent(start, watch, now);
        }
        removed
    }

    /// One reconciliation pass at the instant `now`, over fetched events
    /// whose announced times have been read.
    ///
    /// Each fetched event whose network is watched and whose announced time
    /// could be read and lies after `now` becomes active, unless it is active
    /// already; its gauge is set to 1 before it joins the active events. Then
    /// each active event that is due at `now` or was due before has its
    /// series removed and ceases to be active. The summary counts the events
    /// that became active and those that ceased to be.
    pub fn reconcile_read(&mut self, fetched: &Vec<Reading>, now: Instant) -> (summary: PassSummary)
        requires
            old(self).wf(),
        ensures
            final(self).wf(),
            final(self).watch() == old(self).watch(),
            final(self).model() == reconcile(
                old(self).model(),
                reading_views(fetched@),
                old(self).watch(),
                now,
            ),
            summary.added == accept_all(
                old(self).model(),
                reading_views(fetched@),
                old(self).watch(),
                now,
            ).active.len() - old(self).model().active.len(),
            summary.removed == accept_all(
                old(self).model(),
                reading_views(fetched@),
                old(self).watch(),
                now,
            ).active.len() - final(self).model().active.len(),
    {
        let added = self.take_in(fetched, now);
        let removed = self.drop_elapsed(now);
        PassSummary { added, removed }
    }

    /// One reconciliation pass over a fetched list at the instant `now`: the
    /// announced time of each event is read as an RFC 3339 timestamp, and the
    /// pass goes over the readings. An event whose time cannot be read is
    /// passed over; the others are handled all the same.
    pub fn reconcile(&mut self, fetched: &Vec<UpgradeEvent>, now: Instant) -> (summary: PassSummary)
        requires
            old(self).wf(),
        ensures
            final(self).wf(),
            final(self).watch() == old(self).watch(),
            final(self).model() == reconcile(
                old(self).model(),
                readings_of(event_views(fetched@)),
                old(self).watch(),
                now,
            ),
            summary.added == accept_all(
                old(self).model(),
                readings_of(event_views(fetched@)),
                old(self).watch(),
                now,
            ).active.len() - old(self).model().active.len(),
            summary.removed == accept_all(
                old(self).model(),
                readings_of(event_views(fetched@)),
                old(self).watch(),
                now,
            ).active.len() - final(self).model().active.len(),
            faithful(old(self).model()) ==> faithful(final(self).model()),
    {
        proof {
            if faithful(self.model()) {
                law_due_is_the_announced_time(
                    self.model(),
                    event_views(fetched@),
                    self.watch(),
                    now,
                );
            }
        }
        let mut readings: Vec<Reading> = Vec::new();
        let mut i: usize = 0;
        while i < fetched.len()
            invariant
                i <= fetched.len(),
                readings@.len() == i,
                forall|k: int| 0 <= k < i ==> (#[trigger] readings@[k])@ == fetched@[k]@.read(),
            decreases fetched.len() - i,
        {
            readings.push(Reading::of(&fetched[i]));
            i += 1;
        }
        assert(reading_views(readings@) =~= readings_of(event_views(fetched@)));
        self.reconcile_read(&readings, now)
    }

    /// One tick: a pass over the fetched list, or, where the fetch failed,
    /// no change at all and the fetch's error handed back.
    pub fn tick(&mut self, fetch: Result<Vec<UpgradeEvent>, FetchError>, now: Instant) -> (outcome:
        Result<PassSummary, FetchError>)
        requires
            old(self).wf(),
        ensures
            final(self).wf(),
            final(self).watch() == old(self).watch(),
            faithful(old(self).model()) ==> faithful(final(self).model()),
            match fetch {
                Ok(fetched) => outcome matches Ok(summary) && final(self).model() == reconcile(
                    old(self).model(),
                    readings_of(event_views(fetched@)),
                    old(self).watch(),
                    now,
                ) && summary.added == accept_all(
                    old(self).model(),
                    readings_of(event_views(fetched@)),
                    old(self).watch(),
                    now,
                ).active.len() - old(self).model().active.len() && summary.removed == accept_all(
                    old(self).model(),
                    readings_of(event_views(fetched@)),
                    old(self).watch(),
                    now,
                ).active.len() - final(self).model().active.len(),
                Err(error) => outcome == Err::<PassSummary, FetchError>(error) && final(self).model()
                    == old(self).model(),
            },
    {
        match fetch {
            Ok(fetched) => Ok(self.reconcile(&fetched, now)),
            Err(error) => Err(error),
        }
    }
}

/// What the caller is told of the registry's answer to an offer: an
/// acceptance stays an acceptance, and a refusal is handed on as an error
/// that carries the registry's own wording.
pub fn registration_outcome(answer: Result<(), prometheus::Error>) -> (done: Result<
    (),
    RegistryError,
>)
    ensures
        done.is_ok() == answer.is_ok(),
{
    match answer {
        Ok(()) => Ok(()),
        Err(error) => Err(RegistryError { message: error_text(&error) }),
    }
}

} // verus!
