//! The labelled-gauge store that exported series live in.
//!
//! The store is a `prometheus::IntGaugeVec`. Nothing in this module is proved:
//! every item states what the prometheus crate does, and the rest of the
//! library is proved against these statements.

use vstd::prelude::*;

verus! {

/// `prometheus::Error`, carried through opaquely.
#[verifier::external_type_specification]
#[verifier::external_body]
pub struct ExPrometheusError(prometheus::Error);

/// A `prometheus::IntGaugeVec`, held opaquely. The handle is written through
/// `&mut` although the gauge vector synchronises internally: the contracts
/// below describe a store that has this handle as its only writer.
#[verifier::external_body]
pub struct SeriesStore {
    gauge: prometheus::IntGaugeVec,
}

/// One exported series: the label values its child gauge was created with,
/// and the gauge's value.
pub ghost struct Series {
    pub labels: Seq<Seq<char>>,
    pub value: int,
}

/// The child gauges that a store holds, by the key under which the gauge
/// vector files them.
pub uninterp spec fn store_series(store: SeriesStore) -> Map<u64, Series>;

/// The names of the variable labels that a store was created with.
pub uninterp spec fn store_label_names(store: SeriesStore) -> Seq<Seq<char>>;

/// The key under which a gauge vector files the child for a list of label
/// values: the 64-bit FNV-1a hash of the values' UTF-8 bytes, one value after
/// the other with nothing between them. Two different lists may share a key.
pub uninterp spec fn series_id(labels: Seq<Seq<char>>) -> u64;

/// Whether `IntGaugeVec::new` accepts a metric name, a help text and a list
/// of label names.
pub uninterp spec fn gauge_options_accepted(
    name: Seq<char>,
    help: Seq<char>,
    label_names: Seq<Seq<char>>,
) -> bool;

/// The character sequences of a list of strings.
pub open spec fn texts(items: Seq<String>) -> Seq<Seq<char>> {
    Seq::new(items.len(), |i: int| items[i]@)
}

/// What setting the gauge for `labels` to `value` does to the series: a child
/// that is already filed under the key keeps the labels it was created with.
pub open spec fn series_after_set(series: Map<u64, Series>, labels: Seq<Seq<char>>, value: int) -> Map<
    u64,
    Series,
> {
    let id = series_id(labels);
    let kept = if series.contains_key(id) {
        series[id].labels
    } else {
        labels
    };
    series.insert(id, Series { labels: kept, value })
}

/// `prometheus::IntGaugeVec::new` on `prometheus::Opts::new(name, help)`.
/// Whether the options are accepted depends on the three arguments alone. A
/// new store has the given label names and no series.
#[verifier::external_body]
pub(crate) fn create_store(name: &str, help: &str, label_names: &Vec<String>) -> (created: Result<
    SeriesStore,
    prometheus::Error,
>)
    ensures
        created.is_ok() == gauge_options_accepted(name@, help@, texts(label_names@)),
        created matches Ok(store) ==> store_series(store) == (Map::<u64, Series>::empty()),
        created matches Ok(store) ==> store_label_names(store) == texts(label_names@),
{
    let names: Vec<&str> = label_names.iter().map(|s| s.as_str()).collect();
    let gauge = prometheus::IntGaugeVec::new(prometheus::Opts::new(name, help), &names)?;
    Ok(SeriesStore { gauge })
}

/// `prometheus::IntGaugeVec::get_metric_with_label_values`, then
/// `prometheus::IntGauge::set` on the child it returns. The call fails, and
/// changes nothing, exactly when the number of values differs from the number
/// of label names. Otherwise the child filed under the values' key has the
/// given value; it is created with these values if the key was free.
#[verifier::external_body]
pub(crate) fn set_series(store: &mut SeriesStore, labels: &Vec<String>, value: i64) -> (done: Result<
    (),
    prometheus::Error,
>)
    ensures
        done.is_ok() == (labels@.len() == store_label_names(*old(store)).len()),
        store_label_names(*final(store)) == store_label_names(*old(store)),
        done.is_ok() ==> store_series(*final(store)) == series_after_set(
            store_series(*old(store)),
            texts(labels@),
            value as int,
        ),
        done.is_err() ==> store_series(*final(store)) == store_series(*old(store)),
{
    let values: Vec<&str> = labels.iter().map(|s| s.as_str()).collect();
    let child = store.gauge.get_metric_with_label_values(&values)?;
    child.set(value);
    Ok(())
}

/// `prometheus::IntGaugeVec::remove_label_values`. The call succeeds exactly
/// when the number of values equals the number of label names and a child is
/// filed under the values' key; that child is then gone. A failed call
/// changes nothing.
#[verifier::external_body]
pub(crate) fn remove_series(store: &mut SeriesStore, labels: &Vec<String>) -> (done: Result<
    (),
    prometheus::Error,
>)
    ensures
        done.is_ok() == (labels@.len() == store_label_names(*old(store)).len() && store_series(
            *old(store),
        ).contains_key(series_id(texts(labels@)))),
        store_label_names(*final(store)) == store_label_names(*old(store)),
        done.is_ok() ==> store_series(*final(store)) == store_series(*old(store)).remove(
            series_id(texts(labels@)),
        ),
        done.is_err() ==> store_series(*final(store)) == store_series(*old(store)),
{
    let values: Vec<&str> = labels.iter().map(|s| s.as_str()).collect();
    store.gauge.remove_label_values(&values)
}

/// `prometheus::register` on a clone of the gauge vector, which shares its
/// children. The outcome depends on what the process-wide default registry
/// already holds, so nothing is stated of it.
#[verifier::external_body]
pub(crate) fn register_store(store: &SeriesStore) -> (done: Result<(), prometheus::Error>) {
    prometheus::register(Box::new(store.gauge.clone()))
}

/// The `Display` text of a `prometheus::Error`.
#[verifier::external_body]
pub(crate) fn error_text(error: &prometheus::Error) -> (text: String) {
    error.to_string()
}

} // verus!
