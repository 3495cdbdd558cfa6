use chain_upgrade_exporter::event::UpgradeEvent;
use chain_upgrade_exporter::instant::Instant;
use chain_upgrade_exporter::reconciler::{
    registration_outcome, FetchError, PassSummary, Reading, Reconciler,
};
use chrono::{Duration, Utc};
use prometheus::{Encoder, TextEncoder};

fn instant_of(at: chrono::DateTime<Utc>) -> Instant {
    Instant { secs: at.timestamp(), nanos: at.timestamp_subsec_nanos() }
}

fn event(network: &str, node_version: &str, time: &str, block: u64) -> UpgradeEvent {
    UpgradeEvent {
        network: network.to_string(),
        node_version: node_version.to_string(),
        estimated_upgrade_time: time.to_string(),
        block,
    }
}

fn registered(metric: &str, watch: &[&str]) -> Reconciler {
    let watch_list: Vec<String> = watch.iter().map(|n| n.to_string()).collect();
    let reconciler = Reconciler::new(metric, "Chain upgrade information", watch_list).unwrap();
    reconciler.register().unwrap();
    reconciler
}

fn lines_of(metric: &str) -> Vec<String> {
    let mut buffer = Vec::new();
    TextEncoder::new().encode(&prometheus::gather(), &mut buffer).unwrap();
    let prefix = format!("{}{{", metric);
    let mut lines: Vec<String> = String::from_utf8(buffer)
        .unwrap()
        .lines()
        .filter(|line| line.starts_with(&prefix))
        .map(|line| line.to_string())
        .collect();
    lines.sort();
    lines
}

fn records(reconciler: &Reconciler) -> Vec<(String, String, String, u64)> {
    reconciler
        .active_events()
        .into_iter()
        .map(|e| (e.network, e.node_version, e.estimated_upgrade_time, e.block))
        .collect()
}

const NOON: i64 = 1_893_499_200;

fn noon() -> Instant {
    Instant { secs: NOON, nanos: 0 }
}

#[test]
fn test_add_update_metrics() {
    let watch_list = vec!["testnet".to_string()];
    let mut reconciler =
        Reconciler::new("test_chain_upgrade", "Test chain upgrade information", watch_list).unwrap();
    reconciler.register().unwrap();

    let now = Utc::now();
    let future_time = (now + Duration::hours(1)).to_rfc3339();
    let future_upgrade = "v1.1";
    let past_time = (now - Duration::hours(1)).to_rfc3339();
    let past_upgrade = "v1.0";

    let upgrade_future = event("testnet", future_upgrade, &future_time, 12345);
    let upgrade_past = event("testnet", past_upgrade, &past_time, 12345);

    let earlier = instant_of(now - Duration::hours(2));
    reconciler.reconcile(&vec![upgrade_future.duplicate(), upgrade_past.duplicate()], earlier);
    assert!(reconciler.is_active(&upgrade_future));
    assert!(reconciler.is_active(&upgrade_past));

    reconciler.reconcile(&vec![upgrade_future.duplicate()], instant_of(now));

    let mut buffer = Vec::new();
    let encoder = TextEncoder::new();
    encoder.encode(&prometheus::gather(), &mut buffer).unwrap();
    let output = String::from_utf8(buffer).unwrap();

    assert!(output.contains(future_upgrade));
    assert!(!output.contains(past_upgrade));
}

#[test]
fn watched_future_event_becomes_active_and_exported() {
    let mut reconciler = registered("arrival_chain_upgrade", &["testnet"]);
    let now = Utc::now();
    let time = (now + Duration::hours(1)).to_rfc3339();
    let summary = reconciler.reconcile(&vec![event("testnet", "v1.1", &time, 12345)], instant_of(now));

    assert_eq!(summary, PassSummary { added: 1, removed: 0 });
    assert_eq!(records(&reconciler), vec![("testnet".to_string(), "v1.1".to_string(), time, 12345)]);
    assert_eq!(
        lines_of("arrival_chain_upgrade"),
        vec![
            "arrival_chain_upgrade{block=\"12345\",network=\"testnet\",node_version=\"v1.1\"} 1"
                .to_string()
        ]
    );
}

#[test]
fn event_leaves_once_its_time_has_come() {
    let mut reconciler = registered("departure_chain_upgrade", &["testnet"]);
    let now = Utc::now();
    let due = now + Duration::hours(1);
    let fetched = vec![event("testnet", "v1.1", &due.to_rfc3339(), 12345)];
    reconciler.reconcile(&fetched, instant_of(now));
    assert_eq!(reconciler.active_count(), 1);

    let summary = reconciler.reconcile(&fetched, instant_of(due + Duration::seconds(1)));
    assert_eq!(summary, PassSummary { added: 0, removed: 1 });
    assert_eq!(reconciler.active_count(), 0);
    assert!(lines_of("departure_chain_upgrade").is_empty());
}

#[test]
fn event_leaves_at_the_very_instant_of_its_time() {
    let mut reconciler = registered("boundary_chain_upgrade", &["testnet"]);
    let fetched = vec![event("testnet", "v2", "2030-01-01T12:00:00Z", 7)];
    let just_before = Instant { secs: NOON - 1, nanos: 999_999_999 };
    assert_eq!(reconciler.reconcile(&fetched, just_before), PassSummary { added: 1, removed: 0 });
    assert_eq!(reconciler.reconcile(&fetched, noon()), PassSummary { added: 0, removed: 1 });
    assert_eq!(reconciler.active_count(), 0);
    assert!(lines_of("boundary_chain_upgrade").is_empty());
    assert_eq!(reconciler.reconcile(&fetched, noon()), PassSummary { added: 0, removed: 0 });
}

#[test]
fn unwatched_network_is_never_exported() {
    let mut reconciler = registered("unwatched_chain_upgrade", &["testnet"]);
    let fetched = vec![
        event("mainnet", "v3", "2030-01-01T13:00:00Z", 1),
        event("testnet", "v3", "2030-01-01T13:00:00Z", 1),
    ];
    let summary = reconciler.reconcile(&fetched, noon());
    assert_eq!(summary, PassSummary { added: 1, removed: 0 });
    assert!(!reconciler.is_active(&fetched[0]));
    assert!(reconciler.is_active(&fetched[1]));
    let lines = lines_of("unwatched_chain_upgrade");
    assert_eq!(lines.len(), 1);
    assert!(!lines[0].contains("mainnet"));
}

#[test]
fn failed_fetch_changes_nothing() {
    let mut reconciler = registered("failed_fetch_chain_upgrade", &["testnet"]);
    let fetched = vec![event("testnet", "v1.1", "2030-01-01T13:00:00Z", 12345)];
    assert!(matches!(reconciler.tick(Ok(fetched), noon()), Ok(PassSummary { added: 1, removed: 0 })));
    let before = records(&reconciler);
    let lines = lines_of("failed_fetch_chain_upgrade");

    let later = Instant { secs: NOON + 7200, nanos: 0 };
    let outcome = reconciler.tick(Err(FetchError::Transport("connection refused".to_string())), later);
    assert!(matches!(outcome, Err(FetchError::Transport(ref m)) if m == "connection refused"));
    let outcome = reconciler.tick(Err(FetchError::MalformedPayload("not a list".to_string())), later);
    assert!(matches!(outcome, Err(FetchError::MalformedPayload(ref m)) if m == "not a list"));

    assert_eq!(records(&reconciler), before);
    assert_eq!(lines_of("failed_fetch_chain_upgrade"), lines);
}

#[test]
fn second_pass_over_the_same_list_does_nothing() {
    let mut reconciler = registered("idempotent_chain_upgrade", &["testnet", "devnet"]);
    let fetched = vec![
        event("testnet", "v1.1", "2030-01-01T13:00:00Z", 10),
        event("devnet", "v0.9", "2030-01-01T11:00:00Z", 11),
        event("testnet", "v1.1", "2030-01-01T13:00:00Z", 10),
        event("mainnet", "v1.1", "2030-01-01T13:00:00Z", 10),
        event("devnet", "v1.0", "2030-06-01T00:00:00+02:00", 12),
    ];
    let first = reconciler.reconcile(&fetched, noon());
    assert_eq!(first, PassSummary { added: 2, removed: 0 });
    let active = records(&reconciler);
    let lines = lines_of("idempotent_chain_upgrade");
    assert_eq!(lines.len(), 2);

    let second = reconciler.reconcile(&fetched, noon());
    assert_eq!(second, PassSummary { added: 0, removed: 0 });
    assert_eq!(records(&reconciler), active);
    assert_eq!(lines_of("idempotent_chain_upgrade"), lines);
}

#[test]
fn upcoming_event_survives_later_passes() {
    let mut reconciler = registered("staying_chain_upgrade", &["testnet"]);
    let staying = event("testnet", "v5", "2030-01-02T00:00:00Z", 50);
    let leaving = event("testnet", "v4", "2030-01-01T12:30:00Z", 40);
    reconciler.reconcile(&vec![staying.duplicate(), leaving.duplicate()], noon());
    assert_eq!(reconciler.active_count(), 2);

    let summary = reconciler.reconcile(&vec![], Instant { secs: NOON + 3600, nanos: 0 });
    assert_eq!(summary, PassSummary { added: 0, removed: 1 });
    assert!(reconciler.is_active(&staying));
    assert!(!reconciler.is_active(&leaving));
    assert_eq!(
        lines_of("staying_chain_upgrade"),
        vec!["staying_chain_upgrade{block=\"50\",network=\"testnet\",node_version=\"v5\"} 1".to_string()]
    );
}

#[test]
fn events_differing_only_in_time_share_one_series() {
    let mut reconciler = registered("collision_chain_upgrade", &["testnet"]);
    let sooner = event("testnet", "v1.1", "2030-01-01T13:00:00Z", 12345);
    let later = event("testnet", "v1.1", "2030-01-01T15:00:00Z", 12345);
    let summary = reconciler.reconcile(&vec![sooner.duplicate(), later.duplicate()], noon());
    assert_eq!(summary, PassSummary { added: 2, removed: 0 });
    assert_eq!(reconciler.active_count(), 2);
    assert_eq!(
        lines_of("collision_chain_upgrade"),
        vec![
            "collision_chain_upgrade{block=\"12345\",network=\"testnet\",node_version=\"v1.1\"} 1"
                .to_string()
        ]
    );

    let between = Instant { secs: NOON + 2 * 3600, nanos: 0 };
    let summary = reconciler.reconcile(&vec![later.duplicate()], between);
    assert_eq!(summary, PassSummary { added: 0, removed: 1 });
    assert!(reconciler.is_active(&later));
    assert!(!reconciler.is_active(&sooner));
    assert!(lines_of("collision_chain_upgrade").is_empty());
}

#[test]
fn unreadable_time_skips_only_that_event() {
    let mut reconciler = registered("malformed_chain_upgrade", &["testnet"]);
    let fetched = vec![
        event("testnet", "v1", "tomorrow", 1),
        event("testnet", "v2", "2030-01-01 13:00:00", 2),
        event("testnet", "v3", "", 3),
        event("testnet", "v4", "2030-01-01T13:00:00Z", 4),
    ];
    let summary = reconciler.reconcile(&fetched, noon());
    assert_eq!(summary, PassSummary { added: 1, removed: 0 });
    assert_eq!(
        records(&reconciler),
        vec![("testnet".to_string(), "v4".to_string(), "2030-01-01T13:00:00Z".to_string(), 4)]
    );
    assert_eq!(lines_of("malformed_chain_upgrade").len(), 1);
}

#[test]
fn times_are_compared_as_instants_across_offsets() {
    let mut reconciler = registered("offset_chain_upgrade", &["testnet"]);
    let fetched = vec![
        event("testnet", "east", "2030-01-01T13:30:00+02:00", 1),
        event("testnet", "west", "2030-01-01T11:30:00-01:00", 2),
        event("testnet", "frac", "2030-01-01T12:00:00.000000001Z", 3),
    ];
    let summary = reconciler.reconcile(&fetched, noon());
    assert_eq!(summary, PassSummary { added: 2, removed: 0 });
    assert!(!reconciler.is_active(&fetched[0]));
    assert!(reconciler.is_active(&fetched[1]));
    assert!(reconciler.is_active(&fetched[2]));

    let summary = reconciler.reconcile(&vec![], Instant { secs: NOON, nanos: 1 });
    assert_eq!(summary, PassSummary { added: 0, removed: 1 });
    assert!(!reconciler.is_active(&fetched[2]));
}

#[test]
fn elapsed_event_is_not_taken_in_again() {
    let mut reconciler = registered("terminal_chain_upgrade", &["testnet"]);
    let fetched = vec![event("testnet", "v1", "2030-01-01T12:00:01Z", 1)];
    assert_eq!(reconciler.reconcile(&fetched, noon()), PassSummary { added: 1, removed: 0 });
    let later = Instant { secs: NOON + 1, nanos: 0 };
    assert_eq!(reconciler.reconcile(&fetched, later), PassSummary { added: 0, removed: 1 });
    assert_eq!(reconciler.reconcile(&fetched, later), PassSummary { added: 0, removed: 0 });
    assert_eq!(reconciler.active_count(), 0);
    assert!(lines_of("terminal_chain_upgrade").is_empty());
}

#[test]
fn empty_fetch_on_an_empty_reconciler() {
    let mut reconciler = registered("empty_chain_upgrade", &[]);
    assert_eq!(reconciler.reconcile(&vec![], noon()), PassSummary { added: 0, removed: 0 });
    assert_eq!(reconciler.active_count(), 0);
    assert!(reconciler.active_events().is_empty());
    assert!(!reconciler.watches(&"testnet".to_string()));
}

#[test]
fn watch_list_is_matched_by_exact_name() {
    let reconciler = Reconciler::new(
        "watching_chain_upgrade",
        "Chain upgrade information",
        vec!["testnet".to_string(), "mainnet".to_string()],
    )
    .unwrap();
    assert!(reconciler.watches(&"testnet".to_string()));
    assert!(reconciler.watches(&"mainnet".to_string()));
    assert!(!reconciler.watches(&"Testnet".to_string()));
    assert!(!reconciler.watches(&"test".to_string()));
    assert!(!reconciler.watches(&"".to_string()));
}

#[test]
fn gauge_vector_is_refused_for_a_bad_name_or_help() {
    let refused = Reconciler::new("not a name", "Chain upgrade information", vec![]);
    assert!(refused.is_err());
    assert!(refused.err().unwrap().message.contains("not a valid metric name"));
    let refused = Reconciler::new("helpless_chain_upgrade", "", vec![]);
    assert!(refused.err().unwrap().message.contains("empty help"));
}

#[test]
fn registering_twice_is_refused() {
    let reconciler = Reconciler::new("twice_chain_upgrade", "Chain upgrade information", vec![]).unwrap();
    assert!(reconciler.register().is_ok());
    let again = reconciler.register();
    assert!(again.is_err());
    assert!(!again.err().unwrap().message.is_empty());
}

fn reading(network: &str, node_version: &str, block: u64, due: Option<Instant>) -> Reading {
    Reading { event: event(network, node_version, "as read", block), due }
}

#[test]
fn read_gives_the_instant_of_a_timestamp() {
    let read = Reading::of(&event("testnet", "v1", "2030-01-01T12:00:00Z", 1));
    assert_eq!(read.due, Some(Instant { secs: NOON, nanos: 0 }));
    assert_eq!(read.event.network, "testnet");
    assert_eq!(read.event.node_version, "v1");
    assert_eq!(read.event.estimated_upgrade_time, "2030-01-01T12:00:00Z");
    assert_eq!(read.event.block, 1);

    let read = Reading::of(&event("testnet", "v1", "2030-01-01T14:00:00.25+02:00", 1));
    assert_eq!(read.due, Some(Instant { secs: NOON, nanos: 250_000_000 }));

    let read = Reading::of(&event("testnet", "v1", "1969-12-31T23:59:59.5Z", 1));
    assert_eq!(read.due, Some(Instant { secs: -1, nanos: 500_000_000 }));

    let read = Reading::of(&event("testnet", "v1", "1970-01-01T00:00:00Z", 1));
    assert_eq!(read.due, Some(Instant { secs: 0, nanos: 0 }));
}

#[test]
fn read_gives_none_for_what_is_no_timestamp() {
    for text in ["", "soon", "2030-01-01", "2030-01-01T12:00:00", "2030-13-01T12:00:00Z", "1893499200"] {
        let read = Reading::of(&event("testnet", "v1", text, 1));
        assert_eq!(read.due, None, "{}", text);
        assert_eq!(read.event.estimated_upgrade_time, text);
    }
}

#[test]
fn pass_over_readings_takes_in_what_is_watched_and_ahead() {
    let mut reconciler = registered("readings_chain_upgrade", &["testnet"]);
    let ahead = Some(Instant { secs: NOON + 1, nanos: 0 });
    let fetched = vec![
        reading("testnet", "ahead", 1, ahead),
        reading("testnet", "now", 2, Some(noon())),
        reading("testnet", "past", 3, Some(Instant { secs: NOON - 1, nanos: 0 })),
        reading("testnet", "unread", 4, None),
        reading("mainnet", "unwatched", 5, ahead),
        reading("testnet", "ahead", 1, ahead),
        reading("testnet", "barely", 6, Some(Instant { secs: NOON, nanos: 1 })),
    ];
    let summary = reconciler.reconcile_read(&fetched, noon());
    assert_eq!(summary, PassSummary { added: 2, removed: 0 });
    let versions: Vec<String> =
        reconciler.active_events().into_iter().map(|e| e.node_version).collect();
    assert_eq!(versions, vec!["ahead".to_string(), "barely".to_string()]);
    assert_eq!(
        lines_of("readings_chain_upgrade"),
        vec![
            "readings_chain_upgrade{block=\"1\",network=\"testnet\",node_version=\"ahead\"} 1"
                .to_string(),
            "readings_chain_upgrade{block=\"6\",network=\"testnet\",node_version=\"barely\"} 1"
                .to_string(),
        ]
    );

    let summary = reconciler.reconcile_read(&fetched, Instant { secs: NOON, nanos: 1 });
    assert_eq!(summary, PassSummary { added: 0, removed: 1 });
    let summary = reconciler.reconcile_read(&vec![], Instant { secs: NOON + 1, nanos: 0 });
    assert_eq!(summary, PassSummary { added: 0, removed: 1 });
    assert_eq!(reconciler.active_count(), 0);
    assert!(lines_of("readings_chain_upgrade").is_empty());
}

#[test]
fn arrivals_come_before_departures_within_a_pass() {
    let mut reconciler = registered("order_chain_upgrade", &["testnet"]);
    let old = Reading {
        event: event("testnet", "v1", "first announcement", 9),
        due: Some(Instant { secs: NOON + 10, nanos: 0 }),
    };
    let new = Reading {
        event: event("testnet", "v1", "second announcement", 9),
        due: Some(Instant { secs: NOON + 100, nanos: 0 }),
    };
    assert_eq!(reconciler.reconcile_read(&vec![old], noon()), PassSummary { added: 1, removed: 0 });
    assert_eq!(lines_of("order_chain_upgrade").len(), 1);

    let later = Instant { secs: NOON + 50, nanos: 0 };
    let summary = reconciler.reconcile_read(&vec![new], later);
    assert_eq!(summary, PassSummary { added: 1, removed: 1 });
    let times: Vec<String> =
        reconciler.active_events().into_iter().map(|e| e.estimated_upgrade_time).collect();
    assert_eq!(times, vec!["second announcement".to_string()]);
    assert!(lines_of("order_chain_upgrade").is_empty());
}

#[test]
fn label_values_that_run_together_share_one_series() {
    let mut reconciler = registered("joined_chain_upgrade", &["ab", "a"]);
    let due = Some(Instant { secs: NOON + 10, nanos: 0 });
    let fetched = vec![reading("ab", "c", 1, due), reading("a", "bc", 1, due)];
    let summary = reconciler.reconcile_read(&fetched, noon());
    assert_eq!(summary, PassSummary { added: 2, removed: 0 });
    assert_eq!(reconciler.active_count(), 2);
    assert_eq!(
        lines_of("joined_chain_upgrade"),
        vec!["joined_chain_upgrade{block=\"1\",network=\"ab\",node_version=\"c\"} 1".to_string()]
    );
}

#[test]
fn registry_answer_is_handed_on() {
    assert!(registration_outcome(Ok(())).is_ok());

    let refused = registration_outcome(Err(prometheus::Error::AlreadyReg));
    assert_eq!(
        refused.err().unwrap().message,
        "Duplicate metrics collector registration attempted"
    );

    let refused = registration_outcome(Err(prometheus::Error::Msg("no room".to_string())));
    assert_eq!(refused.err().unwrap().message, "Error: no room");

    let refused = registration_outcome(Err(prometheus::Error::InconsistentCardinality {
        expect: 3,
        got: 2,
    }));
    assert_eq!(
        refused.err().unwrap().message,
        "Inconsistent label cardinality, expect 3 label values, but got 2"
    );
}
